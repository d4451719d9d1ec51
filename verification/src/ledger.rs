//! Token accounting of a selection: how many tokens are spent, and how many
//! of them on each source.

use vstd::prelude::*;
use crate::types::{CandidateSpan, WSItem};

verus! {

/// What the accounting of a selection needs of each selected span: its
/// source (the file path) and its token cost.
pub type Ledger = Seq<(Seq<char>, nat)>;

/// The ledger of a list of candidates.
pub open spec fn candidate_ledger(picks: Seq<CandidateSpan>) -> Ledger {
    picks.map_values(|c: CandidateSpan| (c.metadata.filepath@, c.span_ref.token_cost as nat))
}

/// The ledger of a list of working-set items.
pub open spec fn item_ledger(items: Seq<WSItem>) -> Ledger {
    items.map_values(|w: WSItem| (w.metadata.filepath@, w.span_ref.token_cost as nat))
}

/// The tokens of all entries of a ledger.
pub open spec fn spent(ledger: Ledger) -> nat
    decreases ledger.len(),
{
    if ledger.len() == 0 {
        0
    } else {
        spent(ledger.drop_last()) + ledger.last().1
    }
}

/// The tokens of the entries of one source.
pub open spec fn spent_on(ledger: Ledger, source: Seq<char>) -> nat
    decreases ledger.len(),
{
    if ledger.len() == 0 {
        0
    } else {
        spent_on(ledger.drop_last(), source) + if ledger.last().0 == source {
            ledger.last().1
        } else {
            0
        }
    }
}

/// No source holds more than the whole.
pub proof fn lemma_spent_on_le_spent(ledger: Ledger, source: Seq<char>)
    ensures
        spent_on(ledger, source) <= spent(ledger),
    decreases ledger.len(),
{
    if ledger.len() > 0 {
        lemma_spent_on_le_spent(ledger.drop_last(), source);
    }
}

/// A prefix of a ledger holds no more tokens than the ledger.
pub proof fn lemma_spent_prefix(ledger: Ledger, n: int)
    requires
        0 <= n <= ledger.len(),
    ensures
        spent(ledger.take(n)) <= spent(ledger),
    decreases ledger.len(),
{
    if n < ledger.len() {
        lemma_spent_prefix(ledger.drop_last(), n);
        assert(ledger.drop_last().take(n) =~= ledger.take(n));
    } else {
        assert(ledger.take(n) =~= ledger);
    }
}

/// The tokens of `items` that come from `source`.
pub fn tokens_from(items: &Vec<WSItem>, source: &String) -> (tokens: usize)
    requires
        spent(item_ledger(items@)) <= usize::MAX,
    ensures
        tokens == spent_on(item_ledger(items@), source@),
{
    let ghost ledger = item_ledger(items@);
    let mut tokens: usize = 0;
    let mut i: usize = 0;
    while i < items.len()
        invariant
            i <= items@.len(),
            ledger == item_ledger(items@),
            spent(ledger) <= usize::MAX,
            tokens == spent_on(ledger.take(i as int), source@),
        decreases items@.len() - i,
    {
        proof {
            assert(ledger.take(i + 1).drop_last() =~= ledger.take(i as int));
            lemma_spent_on_le_spent(ledger.take(i + 1), source@);
            lemma_spent_prefix(ledger, i + 1);
        }
        if items[i].metadata.filepath == *source {
            tokens = tokens + items[i].span_ref.token_cost;
        }
        i += 1;
    }
    assert(ledger.take(items@.len() as int) =~= ledger);
    tokens
}

/// The tokens of two ledgers joined are the tokens of both.
pub proof fn lemma_spent_concat(a: Ledger, b: Ledger)
    ensures
        spent(a + b) == spent(a) + spent(b),
    decreases b.len(),
{
    if b.len() == 0 {
        assert(a + b =~= a);
    } else {
        assert((a + b).drop_last() =~= a + b.drop_last());
        lemma_spent_concat(a, b.drop_last());
    }
}

/// The ledger of items joined is the ledgers joined.
pub proof fn lemma_item_ledger_concat(a: Seq<WSItem>, b: Seq<WSItem>)
    ensures
        item_ledger(a + b) == item_ledger(a) + item_ledger(b),
{
    assert(item_ledger(a + b) =~= item_ledger(a) + item_ledger(b));
}

} // verus!
