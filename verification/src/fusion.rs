//! Fusion of the candidates of several generators: candidates that name the
//! same span are merged into one.

use vstd::prelude::*;
use crate::scoring::with_scores;
use crate::types::{all_well_formed, distinct_spans, CandidateSpan, ScoreChannels};

verus! {

/// Channel by channel, the larger of two scores.
pub open spec fn channel_maxima(a: ScoreChannels, b: ScoreChannels) -> ScoreChannels {
    ScoreChannels {
        semantic: if a.semantic >= b.semantic {
            a.semantic
        } else {
            b.semantic
        },
        lexical: if a.lexical >= b.lexical {
            a.lexical
        } else {
            b.lexical
        },
        structural: if a.structural >= b.structural {
            a.structural
        } else {
            b.structural
        },
        graph: if a.graph >= b.graph {
            a.graph
        } else {
            b.graph
        },
    }
}

/// The first index from `start` on at which `fused` holds the span `id`.
pub open spec fn find_from(
    fused: Seq<CandidateSpan>,
    id: (Seq<char>, Seq<char>),
    start: int,
) -> Option<int>
    decreases fused.len() - start,
{
    if start < 0 || start >= fused.len() {
        None
    } else if fused[start].identity() == id {
        Some(start)
    } else {
        find_from(fused, id, start + 1)
    }
}

/// Takes one candidate into the fused list. A candidate whose span the list
/// holds already raises the scores of that entry to the maxima of both and
/// leaves the rest of the entry as it is; a new one is added at the end.
pub open spec fn absorb(fused: Seq<CandidateSpan>, c: CandidateSpan) -> Seq<CandidateSpan> {
    match find_from(fused, c.identity(), 0) {
        Some(i) => fused.update(i, with_scores(fused[i], channel_maxima(fused[i].scores, c.scores))),
        None => fused.push(c),
    }
}

/// Takes the candidates of one list into the fused list, in their order.
pub open spec fn absorb_list(fused: Seq<CandidateSpan>, incoming: Seq<CandidateSpan>) -> Seq<
    CandidateSpan,
>
    decreases incoming.len(),
{
    if incoming.len() == 0 {
        fused
    } else {
        absorb(absorb_list(fused, incoming.drop_last()), incoming.last())
    }
}

/// Takes the candidates of several lists into the fused list, list by list.
pub open spec fn absorb_lists(fused: Seq<CandidateSpan>, lists: Seq<Vec<CandidateSpan>>) -> Seq<
    CandidateSpan,
>
    decreases lists.len(),
{
    if lists.len() == 0 {
        fused
    } else {
        absorb_list(absorb_lists(fused, lists.drop_last()), lists.last()@)
    }
}

/// The fusion of the lists of several generators: one entry for each span,
/// in the order in which the spans are first seen.
pub open spec fn fusion(lists: Seq<Vec<CandidateSpan>>) -> Seq<CandidateSpan> {
    absorb_lists(Seq::empty(), lists)
}

/// The number of candidates in all lists together.
pub open spec fn total_candidates(lists: Seq<Vec<CandidateSpan>>) -> nat
    decreases lists.len(),
{
    if lists.len() == 0 {
        0
    } else {
        total_candidates(lists.drop_last()) + lists.last()@.len()
    }
}

/// What `find_from` finds holds the span and lies in range; it finds
/// nothing only where no entry from `start` on holds the span.
pub proof fn lemma_find_from(fused: Seq<CandidateSpan>, id: (Seq<char>, Seq<char>), start: int)
    requires
        0 <= start,
    ensures
        match find_from(fused, id, start) {
            Some(i) => start <= i < fused.len() && fused[i].identity() == id && forall|j: int|
                start <= j < i ==> (#[trigger] fused[j]).identity() != id,
            None => forall|j: int| start <= j < fused.len() ==> (#[trigger] fused[j]).identity() != id,
        },
    decreases fused.len() - start,
{
    if start < fused.len() && fused[start].identity() != id {
        lemma_find_from(fused, id, start + 1);
    }
}

/// Taking a candidate into a list without duplicates leaves it without
/// duplicates, keeps well-formed entries well-formed, and adds at most one
/// entry.
pub proof fn lemma_absorb(fused: Seq<CandidateSpan>, c: CandidateSpan)
    ensures
        distinct_spans(fused) ==> distinct_spans(absorb(fused, c)),
        all_well_formed(fused) && c.well_formed() ==> all_well_formed(absorb(fused, c)),
        fused.len() <= absorb(fused, c).len() <= fused.len() + 1,
{
    lemma_find_from(fused, c.identity(), 0);
    let out = absorb(fused, c);
    match find_from(fused, c.identity(), 0) {
        Some(k) => {
            assert forall|i: int| 0 <= i < out.len() implies (#[trigger] out[i]).identity()
                == fused[i].identity() && (fused[i].well_formed() ==> out[i].well_formed()) by {}
            if distinct_spans(fused) {
                assert forall|i: int, j: int| 0 <= i < j < out.len() implies (#[trigger] out[i]).identity()
                    != (#[trigger] out[j]).identity() by {
                    assert(fused[i].identity() != fused[j].identity());
                }
            }
        },
        None => {
            if distinct_spans(fused) {
                assert forall|i: int, j: int| 0 <= i < j < out.len() implies (#[trigger] out[i]).identity()
                    != (#[trigger] out[j]).identity() by {
                    if j < fused.len() {
                        assert(fused[i].identity() != fused[j].identity());
                    } else {
                        assert(fused[i].identity() != c.identity());
                    }
                }
            }
        },
    }
}

/// As `lemma_absorb`, for a whole list of candidates.
pub proof fn lemma_absorb_list(fused: Seq<CandidateSpan>, incoming: Seq<CandidateSpan>)
    ensures
        distinct_spans(fused) ==> distinct_spans(absorb_list(fused, incoming)),
        all_well_formed(fused) && all_well_formed(incoming) ==> all_well_formed(
            absorb_list(fused, incoming),
        ),
        fused.len() <= absorb_list(fused, incoming).len() <= fused.len() + incoming.len(),
    decreases incoming.len(),
{
    if incoming.len() > 0 {
        let front = incoming.drop_last();
        lemma_absorb_list(fused, front);
        lemma_absorb(absorb_list(fused, front), incoming.last());
        if all_well_formed(incoming) {
            assert(incoming.last().well_formed());
            assert forall|i: int| 0 <= i < front.len() implies (#[trigger] front[i]).well_formed() by {
                assert(front[i] == incoming[i]);
            }
        }
    }
}

/// All candidates of all lists are well-formed.
pub open spec fn lists_well_formed(lists: Seq<Vec<CandidateSpan>>) -> bool {
    forall|i: int| 0 <= i < lists.len() ==> all_well_formed((#[trigger] lists[i])@)
}

/// The fused list holds no span twice, is well-formed where the inputs are,
/// and is no longer than all inputs together.
pub proof fn lemma_fusion(lists: Seq<Vec<CandidateSpan>>)
    ensures
        distinct_spans(fusion(lists)),
        lists_well_formed(lists) ==> all_well_formed(fusion(lists)),
        fusion(lists).len() <= total_candidates(lists),
    decreases lists.len(),
{
    if lists.len() > 0 {
        let front = lists.drop_last();
        lemma_fusion(front);
        lemma_absorb_list(fusion(front), lists.last()@);
        if lists_well_formed(lists) {
            assert(all_well_formed(lists.last()@));
            assert forall|i: int| 0 <= i < front.len() implies all_well_formed(
                (#[trigger] front[i])@,
            ) by {
                assert(front[i] == lists[i]);
            }
        }
    }
}

/// Fusing a list in which no span occurs twice gives the list back.
pub proof fn lemma_absorb_distinct_list(list: Seq<CandidateSpan>)
    requires
        distinct_spans(list),
    ensures
        absorb_list(Seq::empty(), list) == list,
    decreases list.len(),
{
    if list.len() > 0 {
        let front = list.drop_last();
        assert forall|i: int, j: int| 0 <= i < j < front.len() implies (#[trigger] front[i]).identity()
            != (#[trigger] front[j]).identity() by {
            assert(front[i] == list[i] && front[j] == list[j]);
        }
        lemma_absorb_distinct_list(front);
        lemma_find_from(front, list.last().identity(), 0);
        match find_from(front, list.last().identity(), 0) {
            Some(k) => {
                assert(list[k].identity() == list[list.len() - 1].identity());
            },
            None => {},
        }
        assert(front.push(list.last()) =~= list);
    } else {
        assert(list =~= Seq::empty());
    }
}

/// Fusion is idempotent: fusing the fused list once more, as the only
/// input, yields the same list.
pub proof fn lemma_fusion_idempotent(lists: Seq<Vec<CandidateSpan>>, fused: Vec<CandidateSpan>)
    requires
        fused@ == fusion(lists),
    ensures
        fusion(seq![fused]) == fusion(lists),
{
    lemma_fusion(lists);
    lemma_absorb_distinct_list(fused@);
    let single = seq![fused];
    assert(single.drop_last() =~= Seq::<Vec<CandidateSpan>>::empty());
    assert(single.last() == fused);
    assert(absorb_lists(Seq::empty(), single.drop_last()) == Seq::<CandidateSpan>::empty());
    assert(fusion(single) == absorb_list(Seq::empty(), fused@));
}

/// The candidate `x` has the span, the metadata, the embedding and the
/// preview of `c`. Its channel scores, its base score and its MMR score may
/// differ.
pub open spec fn stems_from(x: CandidateSpan, c: CandidateSpan) -> bool {
    &&& x.span_ref == c.span_ref
    &&& x.metadata == c.metadata
    &&& x.embedding == c.embedding
    &&& x.text_preview == c.text_preview
}

/// The candidate `x` stems from one of `list`.
pub open spec fn in_list(list: Seq<CandidateSpan>, x: CandidateSpan) -> bool {
    exists|k: int| 0 <= k < list.len() && stems_from(x, #[trigger] list[k])
}

/// The candidate `x` stems from a candidate of one of the lists.
pub open spec fn in_lists(lists: Seq<Vec<CandidateSpan>>, x: CandidateSpan) -> bool {
    exists|l: int| 0 <= l < lists.len() && in_list((#[trigger] lists[l])@, x)
}

proof fn lemma_absorb_origin(fused: Seq<CandidateSpan>, c: CandidateSpan, i: int)
    requires
        0 <= i < absorb(fused, c).len(),
    ensures
        in_list(fused, absorb(fused, c)[i]) || stems_from(absorb(fused, c)[i], c),
{
    lemma_find_from(fused, c.identity(), 0);
    if i < fused.len() {
        assert(stems_from(absorb(fused, c)[i], fused[i]));
    }
}

proof fn lemma_absorb_list_origin(
    fused: Seq<CandidateSpan>,
    incoming: Seq<CandidateSpan>,
    i: int,
)
    requires
        0 <= i < absorb_list(fused, incoming).len(),
    ensures
        in_list(fused, absorb_list(fused, incoming)[i]) || in_list(
            incoming,
            absorb_list(fused, incoming)[i],
        ),
    decreases incoming.len(),
{
    if incoming.len() > 0 {
        let front = incoming.drop_last();
        let mid = absorb_list(fused, front);
        let x = absorb_list(fused, incoming)[i];
        lemma_absorb_origin(mid, incoming.last(), i);
        if in_list(mid, x) {
            let k = choose|k: int| 0 <= k < mid.len() && stems_from(x, #[trigger] mid[k]);
            lemma_absorb_list_origin(fused, front, k);
            if in_list(fused, mid[k]) {
                let a = choose|a: int| 0 <= a < fused.len() && stems_from(mid[k], #[trigger] fused[a]);
                assert(stems_from(x, fused[a]));
            } else {
                let a = choose|a: int| 0 <= a < front.len() && stems_from(mid[k], #[trigger] front[a]);
                assert(stems_from(x, incoming[a]));
            }
        } else {
            assert(stems_from(x, incoming[incoming.len() - 1]));
        }
    } else {
        assert(stems_from(fused[i], fused[i]));
    }
}

proof fn lemma_absorb_lists_origin(
    fused: Seq<CandidateSpan>,
    lists: Seq<Vec<CandidateSpan>>,
    i: int,
)
    requires
        0 <= i < absorb_lists(fused, lists).len(),
    ensures
        in_list(fused, absorb_lists(fused, lists)[i]) || in_lists(
            lists,
            absorb_lists(fused, lists)[i],
        ),
    decreases lists.len(),
{
    if lists.len() > 0 {
        let front = lists.drop_last();
        let mid = absorb_lists(fused, front);
        let x = absorb_lists(fused, lists)[i];
        lemma_absorb_list_origin(mid, lists.last()@, i);
        if in_list(mid, x) {
            let k = choose|k: int| 0 <= k < mid.len() && stems_from(x, #[trigger] mid[k]);
            lemma_absorb_lists_origin(fused, front, k);
            if in_list(fused, mid[k]) {
                let a = choose|a: int| 0 <= a < fused.len() && stems_from(mid[k], #[trigger] fused[a]);
                assert(stems_from(x, fused[a]));
            } else {
                let l = choose|l: int| 0 <= l < front.len() && in_list((#[trigger] front[l])@, mid[k]);
                let a = choose|a: int|
                    0 <= a < front[l]@.len() && stems_from(mid[k], #[trigger] front[l]@[a]);
                assert(stems_from(x, lists[l]@[a]));
                assert(in_list(lists[l]@, x));
            }
        } else {
            assert(in_list(lists[lists.len() - 1]@, x));
        }
    } else {
        assert(stems_from(fused[i], fused[i]));
    }
}

/// Every fused candidate stems from a candidate of one of the lists: it
/// has the span, the metadata, the embedding and the preview of that one.
pub proof fn lemma_fusion_origin(lists: Seq<Vec<CandidateSpan>>, i: int)
    requires
        0 <= i < fusion(lists).len(),
    ensures
        in_lists(lists, fusion(lists)[i]),
{
    lemma_absorb_lists_origin(Seq::empty(), lists, i);
}

/// All candidates of all lists in one list, list by list.
pub open spec fn flattened(lists: Seq<Vec<CandidateSpan>>) -> Seq<CandidateSpan>
    decreases lists.len(),
{
    if lists.len() == 0 {
        Seq::empty()
    } else {
        flattened(lists.drop_last()) + lists.last()@
    }
}

/// Channel by channel, the largest score that the candidates of the span
/// `id` have in a list; zero where the list holds none.
pub open spec fn best_scores(all: Seq<CandidateSpan>, id: (Seq<char>, Seq<char>)) -> ScoreChannels
    decreases all.len(),
{
    if all.len() == 0 {
        ScoreChannels { semantic: 0, lexical: 0, structural: 0, graph: 0 }
    } else if all.last().identity() == id {
        channel_maxima(best_scores(all.drop_last(), id), all.last().scores)
    } else {
        best_scores(all.drop_last(), id)
    }
}

/// The list `fused` is the fusion of the candidates `all`: each of its
/// entries stems from the first candidate of its span and has the best
/// scores of all candidates of its span, and every candidate's span has an
/// entry.
pub open spec fn is_fusion_of(fused: Seq<CandidateSpan>, all: Seq<CandidateSpan>) -> bool {
    &&& forall|i: int|
        0 <= i < fused.len() ==> (find_from(all, (#[trigger] fused[i]).identity(), 0) matches Some(
            k,
        ) && stems_from(fused[i], all[k]) && fused[i].scores == best_scores(
            all,
            fused[i].identity(),
        ))
    &&& forall|k: int|
        0 <= k < all.len() ==> find_from(fused, (#[trigger] all[k]).identity(), 0) is Some
}

proof fn lemma_find_from_push(
    list: Seq<CandidateSpan>,
    c: CandidateSpan,
    id: (Seq<char>, Seq<char>),
    start: int,
)
    requires
        0 <= start <= list.len(),
    ensures
        find_from(list.push(c), id, start) == match find_from(list, id, start) {
            Some(k) => Some(k),
            None => if c.identity() == id {
                Some(list.len() as int)
            } else {
                None
            },
        },
    decreases list.len() - start,
{
    if start < list.len() {
        assert(list.push(c)[start] == list[start]);
        if list[start].identity() != id {
            lemma_find_from_push(list, c, id, start + 1);
        }
    } else {
        assert(list.push(c)[start] == c);
        assert(find_from(list.push(c), id, start + 1) is None);
    }
}

proof fn lemma_no_occurrence_no_scores(all: Seq<CandidateSpan>, id: (Seq<char>, Seq<char>))
    requires
        find_from(all, id, 0) is None,
    ensures
        best_scores(all, id) == (ScoreChannels { semantic: 0, lexical: 0, structural: 0, graph: 0 }),
    decreases all.len(),
{
    if all.len() > 0 {
        lemma_find_from(all, id, 0);
        let front = all.drop_last();
        lemma_find_from(front, id, 0);
        assert forall|j: int| 0 <= j < front.len() implies (#[trigger] front[j]).identity() != id by {
            assert(front[j] == all[j]);
        }
        lemma_no_occurrence_no_scores(front, id);
    }
}

/// Taking the candidates of a list in, one after the other, gives their
/// fusion.
pub proof fn lemma_absorb_list_is_fusion(all: Seq<CandidateSpan>)
    ensures
        is_fusion_of(absorb_list(Seq::empty(), all), all),
    decreases all.len(),
{
    let empty = Seq::<CandidateSpan>::empty();
    if all.len() > 0 {
        let front = all.drop_last();
        let c = all.last();
        let mid = absorb_list(empty, front);
        let out = absorb_list(empty, all);
        lemma_absorb_list_is_fusion(front);
        lemma_find_from(mid, c.identity(), 0);
        assert(front.push(c) =~= all);
        assert forall|i: int| 0 <= i < out.len() implies (find_from(
            all,
            (#[trigger] out[i]).identity(),
            0,
        ) matches Some(k) && stems_from(out[i], all[k]) && out[i].scores == best_scores(
            all,
            out[i].identity(),
        )) by {
            let id = out[i].identity();
            lemma_find_from_push(front, c, id, 0);
            if i < mid.len() {
                assert(out[i].identity() == mid[i].identity());
                let k = find_from(front, id, 0)->0;
                lemma_find_from(front, id, 0);
                assert(all[k] == front[k]);
                if c.identity() == id {
                    assert(find_from(mid, c.identity(), 0) == Some(i)) by {
                        lemma_absorb(empty, c);
                        lemma_absorb_list(empty, front);
                        lemma_find_from(mid, id, 0);
                        let f = find_from(mid, id, 0)->0;
                        if f != i {
                            if f < i {
                                assert(mid[f].identity() != mid[i].identity());
                            } else {
                                assert(mid[i].identity() != mid[f].identity());
                            }
                        }
                    }
                } else {
                    match find_from(mid, c.identity(), 0) {
                        Some(j) => {
                            assert(j != i);
                        },
                        None => {},
                    }
                }
            } else {
                assert(find_from(mid, c.identity(), 0) is None);
                assert(out[i] == c);
                if find_from(front, id, 0) is Some {
                    let k = find_from(front, id, 0)->0;
                    lemma_find_from(front, id, 0);
                    assert(find_from(mid, front[k].identity(), 0) is Some);
                }
                lemma_no_occurrence_no_scores(front, id);
            }
        }
        assert forall|k: int| 0 <= k < all.len() implies find_from(
            out,
            (#[trigger] all[k]).identity(),
            0,
        ) is Some by {
            let id = all[k].identity();
            lemma_find_from(out, id, 0);
            if k < front.len() {
                assert(front[k] == all[k]);
                let i = find_from(mid, id, 0)->0;
                lemma_find_from(mid, id, 0);
                assert(out[i].identity() == id);
            } else {
                match find_from(mid, c.identity(), 0) {
                    Some(i) => {
                        assert(out[i].identity() == id);
                    },
                    None => {
                        assert(out[mid.len() as int].identity() == id);
                    },
                }
            }
        }
    }
}

proof fn lemma_absorb_list_concat(
    fused: Seq<CandidateSpan>,
    a: Seq<CandidateSpan>,
    b: Seq<CandidateSpan>,
)
    ensures
        absorb_list(fused, a + b) == absorb_list(absorb_list(fused, a), b),
    decreases b.len(),
{
    if b.len() == 0 {
        assert(a + b =~= a);
    } else {
        assert((a + b).drop_last() =~= a + b.drop_last());
        lemma_absorb_list_concat(fused, a, b.drop_last());
    }
}

/// Fusion takes the candidates as if they stood in one list.
pub proof fn lemma_fusion_of_flattened(lists: Seq<Vec<CandidateSpan>>)
    ensures
        fusion(lists) == absorb_list(Seq::empty(), flattened(lists)),
        is_fusion_of(fusion(lists), flattened(lists)),
    decreases lists.len(),
{
    if lists.len() > 0 {
        lemma_fusion_of_flattened(lists.drop_last());
        lemma_absorb_list_concat(Seq::empty(), flattened(lists.drop_last()), lists.last()@);
    }
    lemma_absorb_list_is_fusion(flattened(lists));
}

fn merge_into(fused: &mut Vec<CandidateSpan>, cand: CandidateSpan)
    ensures
        final(fused)@ == absorb(old(fused)@, cand),
{
    let mut i: usize = 0;
    while i < fused.len()
        invariant
            i <= fused@.len(),
            fused@ == old(fused)@,
            find_from(fused@, cand.identity(), 0) == find_from(fused@, cand.identity(), i as int),
        decreases fused@.len() - i,
    {
        if fused[i].span_ref.same_span(&cand.span_ref) {
            let s = fused[i].scores;
            let t = cand.scores;
            let merged = ScoreChannels {
                semantic: if s.semantic >= t.semantic {
                    s.semantic
                } else {
                    t.semantic
                },
                lexical: if s.lexical >= t.lexical {
                    s.lexical
                } else {
                    t.lexical
                },
                structural: if s.structural >= t.structural {
                    s.structural
                } else {
                    t.structural
                },
                graph: if s.graph >= t.graph {
                    s.graph
                } else {
                    t.graph
                },
            };
            fused[i].scores = merged;
            assert(fused@ =~= absorb(old(fused)@, cand));
            return ;
        }
        i += 1;
    }
    fused.push(cand);
}

/// Fuses the candidates of several generators and removes duplicates.
///
/// Candidates are taken list by list, each list in its order. The first
/// candidate of a span gives the entry its metadata, embedding, preview and
/// offsets; each later one only raises the scores, channel by channel, to
/// the maximum.
pub fn fuse_candidates(candidate_vecs: Vec<Vec<CandidateSpan>>) -> (fused: Vec<CandidateSpan>)
    ensures
        fused@ == fusion(candidate_vecs@),
        is_fusion_of(fused@, flattened(candidate_vecs@)),
        distinct_spans(fused@),
{
    proof {
        lemma_fusion_of_flattened(candidate_vecs@);
        lemma_fusion(candidate_vecs@);
    }
    let mut fused: Vec<CandidateSpan> = Vec::new();
    let ghost lists = candidate_vecs@;
    for list in outer: candidate_vecs.into_iter()
        invariant
            outer.seq() == lists,
            fused@ == absorb_lists(Seq::empty(), lists.take(outer.index() as int)),
    {
        let ghost incoming = list@;
        let ghost start = fused@;
        for cand in inner: list.into_iter()
            invariant
                inner.seq() == incoming,
                fused@ == absorb_list(start, incoming.take(inner.index() as int)),
        {
            proof {
                let k = inner.index() as int;
                assert(incoming.take(k + 1).drop_last() =~= incoming.take(k));
            }
            merge_into(&mut fused, cand);
        }
        proof {
            let k = outer.index() as int;
            assert(incoming.take(incoming.len() as int) =~= incoming);
            assert(lists.take(k + 1).drop_last() =~= lists.take(k));
        }
    }
    proof {
        assert(lists.take(lists.len() as int) =~= lists);
    }
    fused
}

} // verus!
