//! Context that enriches a compilation: the history of the session, which
//! is taken into the working set as it is, and the memories of the user,
//! which compete with the other candidates.

use vstd::prelude::*;
use vstd::string::*;
use crate::ledger::{item_ledger, lemma_item_ledger_concat, lemma_spent_concat, spent};
use crate::memory_client::Memory;
use crate::session_client::SessionContextSpan;
use crate::text::{
    append_decimal, byte_len, decimal, lemma_decimal_injective, text_bytes, text_is, texts,
};
use crate::types::{
    all_session, distinct_items, CandidateSpan, ScoreChannels, SourceType, SpanMetadata, SpanRef,
    WSItem,
};

verus! {

/// The share of the budget that session context may take at most: a half.
pub open spec fn session_cap(budget_tokens: nat) -> nat {
    budget_tokens / 2
}

/// The session spans that stay: spans are dropped from the front, the oldest
/// first, until the rest costs no more than `cap` tokens.
pub open spec fn trimmed(session: Seq<WSItem>, cap: nat) -> Seq<WSItem>
    decreases session.len(),
{
    if session.len() == 0 || spent(item_ledger(session)) <= cap {
        session
    } else {
        trimmed(session.drop_first(), cap)
    }
}

proof fn lemma_spent_single(item: WSItem)
    ensures
        spent(item_ledger(seq![item])) == item.span_ref.token_cost,
{
    let ledger = item_ledger(seq![item]);
    assert(ledger.drop_last() =~= Seq::empty());
    assert(spent(ledger.drop_last()) == 0);
}

proof fn lemma_suffix_spent(session: Seq<WSItem>, j: int, k: int)
    requires
        0 <= j <= k <= session.len(),
    ensures
        spent(item_ledger(session.skip(j))) == spent(item_ledger(session.subrange(j, k))) + spent(
            item_ledger(session.skip(k)),
        ),
{
    assert(session.skip(j) =~= session.subrange(j, k) + session.skip(k));
    lemma_item_ledger_concat(session.subrange(j, k), session.skip(k));
    lemma_spent_concat(item_ledger(session.subrange(j, k)), item_ledger(session.skip(k)));
}

proof fn lemma_trimmed_is_suffix(session: Seq<WSItem>, cap: nat, k: int)
    requires
        0 <= k <= session.len(),
        spent(item_ledger(session.skip(k))) <= cap,
        k > 0 ==> spent(item_ledger(session.skip(k - 1))) > cap,
    ensures
        trimmed(session, cap) == session.skip(k),
    decreases k,
{
    if k == 0 {
        assert(session.skip(0) =~= session);
    } else {
        lemma_suffix_spent(session, 0, k - 1);
        assert(session.skip(0) =~= session);
        let rest = session.drop_first();
        assert(rest.skip(k - 1) =~= session.skip(k));
        if k > 1 {
            assert(rest.skip(k - 2) =~= session.skip(k - 1));
        }
        lemma_trimmed_is_suffix(rest, cap, k - 1);
    }
}

/// Reserves budget for the session context. The session may take at most
/// half of the budget: where it costs more, spans are dropped from the
/// front until it fits. Returns the spans that stay and the budget that is
/// left for retrieval.
pub fn reserve_session_budget(session_spans: Vec<WSItem>, budget_tokens: usize) -> (r: (
    Vec<WSItem>,
    usize,
))
    ensures
        r.0@ == trimmed(session_spans@, session_cap(budget_tokens as nat)),
        spent(item_ledger(r.0@)) <= session_cap(budget_tokens as nat),
        r.1 == budget_tokens - spent(item_ledger(r.0@)),
{
    let cap = budget_tokens / 2;
    let mut spans = session_spans;
    let ghost all = spans@;
    let mut k: usize = spans.len();
    let mut kept_tokens: usize = 0;
    assert(all.skip(k as int) =~= Seq::<WSItem>::empty());
    assert(item_ledger(Seq::<WSItem>::empty()) =~= Seq::empty());
    while k > 0 && spans[k - 1].span_ref.token_cost <= cap - kept_tokens
        invariant
            spans@ == all,
            k <= all.len(),
            kept_tokens == spent(item_ledger(all.skip(k as int))),
            kept_tokens <= cap,
        decreases k,
    {
        proof {
            lemma_suffix_spent(all, k - 1, k as int);
            assert(all.subrange(k - 1, k as int) =~= seq![all[k - 1]]);
            lemma_spent_single(all[k - 1]);
        }
        kept_tokens = kept_tokens + spans[k - 1].span_ref.token_cost;
        k -= 1;
    }
    proof {
        if k > 0 {
            lemma_suffix_spent(all, k - 1, k as int);
            assert(all.subrange(k - 1, k as int) =~= seq![all[k - 1]]);
            lemma_spent_single(all[k - 1]);
        }
        lemma_trimmed_is_suffix(all, cap as nat, k as int);
    }
    let kept = spans.split_off(k);
    assert(kept@ =~= all.skip(k as int));
    (kept, budget_tokens - kept_tokens)
}

/// The session spans that stay are the last of those given: the longest
/// run of them, up to the newest, that costs no more than `cap` tokens.
pub proof fn lemma_trimmed_suffix(session: Seq<WSItem>, cap: nat)
    ensures
        trimmed(session, cap).len() <= session.len(),
        trimmed(session, cap) == session.skip(session.len() - trimmed(session, cap).len()),
        spent(item_ledger(trimmed(session, cap))) <= cap,
        forall|k: int|
            0 <= k < session.len() - trimmed(session, cap).len() ==> spent(
                item_ledger(#[trigger] session.skip(k)),
            ) > cap,
    decreases session.len(),
{
    if session.len() == 0 || spent(item_ledger(session)) <= cap {
        assert(session.skip(0) =~= session);
        if session.len() == 0 {
            assert(item_ledger(session) =~= Seq::empty());
        }
    } else {
        let rest = session.drop_first();
        lemma_trimmed_suffix(rest, cap);
        let off = rest.len() - trimmed(rest, cap).len();
        assert(rest.skip(off) =~= session.skip(off + 1));
        assert forall|k: int| 0 <= k < off + 1 implies spent(
            item_ledger(#[trigger] session.skip(k)),
        ) > cap by {
            if k == 0 {
                assert(session.skip(0) =~= session);
            } else {
                assert(rest.skip(k - 1) =~= session.skip(k));
            }
        }
    }
}

/// The working-set item of the span at index `idx` of a session's context.
/// It takes its text and its token cost from the store.
pub open spec fn is_session_item(
    item: WSItem,
    session_id: Seq<char>,
    idx: nat,
    span: SessionContextSpan,
) -> bool {
    &&& item.span_ref.span_id@ == "session-"@ + session_id + "-"@ + decimal(idx)
    &&& item.span_ref.doc_version_id@ == "session:"@ + session_id
    &&& item.span_ref.char_start == 0
    &&& item.span_ref.char_end == text_bytes(span.text@).len()
    &&& item.span_ref.token_cost == span.token_estimate
    &&& item.text@ == span.text@
    &&& item.metadata.filepath@ == "session/"@ + session_id
    &&& item.metadata.workstream is None
    &&& item.metadata.stage is None
    &&& item.metadata.section_title is None
    &&& item.metadata.created_at == 0
    &&& item.metadata.recency_score == 1_000_000
    &&& item.metadata.source_type == SourceType::Session
    &&& texts(item.metadata.tags@) == seq!["session"@, "conversation"@]
}

/// The items of a session are all spans of the session, and no two of them
/// name the same span.
pub proof fn lemma_session_items(
    items: Seq<WSItem>,
    session_id: Seq<char>,
    context_spans: Seq<SessionContextSpan>,
)
    requires
        items.len() == context_spans.len(),
        forall|i: int|
            0 <= i < items.len() ==> is_session_item(
                #[trigger] items[i],
                session_id,
                i as nat,
                context_spans[i],
            ),
    ensures
        all_session(items),
        distinct_items(items),
{
    let prefix = "session-"@ + session_id + "-"@;
    assert forall|i: int, j: int| 0 <= i < j < items.len() implies (#[trigger] items[i]).span_ref.identity()
        != (#[trigger] items[j]).span_ref.identity() by {
        let a = items[i].span_ref.span_id@;
        let b = items[j].span_ref.span_id@;
        if a == b {
            assert(a.skip(prefix.len() as int) =~= decimal(i as nat));
            assert(b.skip(prefix.len() as int) =~= decimal(j as nat));
            lemma_decimal_injective(i as nat, j as nat);
        }
    }
}

/// Turns the context spans of a session into working-set items, in the
/// order of the store.
pub fn session_items(session_id: &str, context_spans: &Vec<SessionContextSpan>) -> (items: Vec<
    WSItem,
>)
    ensures
        items@.len() == context_spans@.len(),
        forall|i: int|
            0 <= i < items@.len() ==> is_session_item(
                #[trigger] items@[i],
                session_id@,
                i as nat,
                context_spans@[i],
            ),
        all_session(items@),
        distinct_items(items@),
{
    let mut items: Vec<WSItem> = Vec::new();
    let mut idx: usize = 0;
    while idx < context_spans.len()
        invariant
            idx <= context_spans@.len(),
            items@.len() == idx,
            forall|i: int|
                0 <= i < idx ==> is_session_item(
                    #[trigger] items@[i],
                    session_id@,
                    i as nat,
                    context_spans@[i],
                ),
        decreases context_spans@.len() - idx,
    {
        let span = &context_spans[idx];
        let mut span_id = "session-".to_owned();
        span_id.append(session_id);
        span_id.append("-");
        append_decimal(&mut span_id, idx as u128);
        let mut doc_version_id = "session:".to_owned();
        doc_version_id.append(session_id);
        let mut filepath = "session/".to_owned();
        filepath.append(session_id);
        let mut tags: Vec<String> = Vec::new();
        tags.push("session".to_owned());
        tags.push("conversation".to_owned());
        assert(texts(tags@) =~= seq!["session"@, "conversation"@]);
        let item = WSItem {
            span_ref: SpanRef {
                doc_version_id,
                span_id,
                char_start: 0,
                char_end: byte_len(&span.text),
                token_cost: span.token_estimate,
            },
            text: span.text.clone(),
            metadata: SpanMetadata {
                filepath,
                workstream: None,
                stage: None,
                section_title: None,
                created_at: 0,
                recency_score: 1_000_000,
                source_type: SourceType::Session,
                tags,
            },
        };
        items.push(item);
        idx += 1;
    }
    proof {
        lemma_session_items(items@, session_id@, context_spans@);
    }
    items
}

/// The text that `str::trim` returns for a text.
pub uninterp spec fn trimmed_text(text: Seq<char>) -> Seq<char>;

/// Calls `str::trim`, which returns the text without leading and trailing
/// whitespace. The contract only names the result.
#[verifier::external_body]
fn trim(text: &str) -> (trimmed: &str)
    ensures
        trimmed@ == trimmed_text(text@),
{
    text.trim()
}

/// The stage of a memory, from its category.
pub open spec fn memory_stage(category: Option<String>) -> Seq<char> {
    match category {
        Some(cat) => if cat@ == "user_preferences"@ || cat@ == "preferences"@ {
            "memory_prefs"@
        } else if cat@ == "project_context"@ {
            "memory_project"@
        } else if cat@ == "decisions"@ || cat@ == "project_decisions"@ {
            "memory_decisions"@
        } else {
            "memory"@
        },
        None => "memory"@,
    }
}

/// The tags of a memory: `memory`, its source and, where it has one, its
/// category.
pub open spec fn memory_tags(source: Seq<char>, category: Option<String>) -> Seq<Seq<char>> {
    match category {
        Some(cat) => seq!["memory"@, source, cat@],
        None => seq!["memory"@, source],
    }
}

/// The relevance taken for a memory that states none: `0.8`.
pub const DEFAULT_MEMORY_RELEVANCE: u32 = 800_000;

/// The token cost of a text of `bytes` bytes that states none:
/// `max(10, bytes / 4)`.
pub open spec fn estimated_tokens(bytes: nat) -> nat {
    if bytes / 4 > 10 {
        bytes / 4
    } else {
        10
    }
}

/// The candidate made from the memory at index `idx` of a user's memories.
/// It holds the whole text of the memory as its preview.
pub open spec fn is_memory_candidate(
    c: CandidateSpan,
    user_id: Seq<char>,
    idx: nat,
    memory: Memory,
    now: i64,
) -> bool {
    &&& c.span_ref.doc_version_id@ == "memory:"@ + user_id
    &&& c.span_ref.span_id@ == "memory-"@ + user_id + "-"@ + decimal(idx)
    &&& c.span_ref.char_start == 0
    &&& c.span_ref.char_end == text_bytes(memory.text@).len()
    &&& c.span_ref.token_cost == estimated_tokens(text_bytes(memory.text@).len())
    &&& c.scores == (ScoreChannels {
        semantic: match memory.relevance {
            Some(r) => r,
            None => DEFAULT_MEMORY_RELEVANCE,
        },
        lexical: 0,
        structural: 0,
        graph: 0,
    })
    &&& c.embedding is None
    &&& c.text_preview == memory.text
    &&& c.metadata.filepath@ == "memory/"@ + user_id
    &&& c.metadata.workstream is None
    &&& c.metadata.stage matches Some(stage) && stage@ == memory_stage(memory.category)
    &&& c.metadata.section_title is None
    &&& c.metadata.created_at == now
    &&& c.metadata.recency_score == 950_000
    &&& c.metadata.source_type == SourceType::Memory
    &&& texts(c.metadata.tags@) == memory_tags(memory.source@, memory.category)
    &&& c.base_score == 0
    &&& c.mmr_score == 0
    &&& c.well_formed()
}

/// Makes a candidate from one memory.
pub fn memory_candidate(user_id: &str, idx: usize, memory: Memory, now: i64) -> (c: CandidateSpan)
    ensures
        is_memory_candidate(c, user_id@, idx as nat, memory, now),
{
    let bytes = byte_len(&memory.text);
    let token_cost = if bytes / 4 > 10 {
        bytes / 4
    } else {
        10
    };
    let mut doc_version_id = "memory:".to_owned();
    doc_version_id.append(user_id);
    let mut span_id = "memory-".to_owned();
    span_id.append(user_id);
    span_id.append("-");
    append_decimal(&mut span_id, idx as u128);
    let mut filepath = "memory/".to_owned();
    filepath.append(user_id);
    let semantic = match memory.relevance {
        Some(r) => r,
        None => DEFAULT_MEMORY_RELEVANCE,
    };
    let mut tags: Vec<String> = Vec::new();
    tags.push("memory".to_owned());
    tags.push(memory.source.clone());
    let stage = match &memory.category {
        Some(cat) => {
            tags.push(cat.clone());
            if text_is(cat, "user_preferences") || text_is(cat, "preferences") {
                "memory_prefs".to_owned()
            } else if text_is(cat, "project_context") {
                "memory_project".to_owned()
            } else if text_is(cat, "decisions") || text_is(cat, "project_decisions") {
                "memory_decisions".to_owned()
            } else {
                "memory".to_owned()
            }
        },
        None => "memory".to_owned(),
    };
    assert(texts(tags@) =~= memory_tags(memory.source@, memory.category));
    CandidateSpan {
        span_ref: SpanRef { doc_version_id, span_id, char_start: 0, char_end: bytes, token_cost },
        scores: ScoreChannels { semantic, lexical: 0, structural: 0, graph: 0 },
        embedding: None,
        text_preview: memory.text,
        metadata: SpanMetadata {
            filepath,
            workstream: None,
            stage: Some(stage),
            section_title: None,
            created_at: now,
            recency_score: 950_000,
            source_type: SourceType::Memory,
            tags,
        },
        base_score: 0,
        mmr_score: 0,
    }
}

/// A memory without text, or with a text of which trimming leaves
/// nothing.
pub open spec fn is_blank(memory: Memory) -> bool {
    memory.text@.len() == 0 || trimmed_text(memory.text@).len() == 0
}

/// Decides `is_blank`.
pub fn is_blank_memory(memory: &Memory) -> (blank: bool)
    ensures
        blank == is_blank(*memory),
        memory.text@.len() == 0 ==> blank,
{
    memory.text.as_str().is_empty() || trim(memory.text.as_str()).is_empty()
}

/// The indices of the memories that are not blank, in rising order.
pub open spec fn kept_memories(memories: Seq<Memory>) -> Seq<int>
    decreases memories.len(),
{
    if memories.len() == 0 {
        Seq::empty()
    } else {
        let rest = kept_memories(memories.drop_last());
        if is_blank(memories.last()) {
            rest
        } else {
            rest.push(memories.len() - 1)
        }
    }
}

/// The indices that `kept_memories` gives lie within the list, and the
/// memories at them have a text.
pub proof fn lemma_kept_memories_in_range(memories: Seq<Memory>, j: int)
    requires
        0 <= j < kept_memories(memories).len(),
    ensures
        0 <= kept_memories(memories)[j] < memories.len(),
        memories[kept_memories(memories)[j]].text@.len() > 0,
    decreases memories.len(),
{
    if memories.len() > 0 {
        let rest = kept_memories(memories.drop_last());
        if j < rest.len() {
            lemma_kept_memories_in_range(memories.drop_last(), j);
        }
    }
}

/// Turns the memories of a user into candidates, which then compete in the
/// selection. Blank memories are dropped, those without text among them;
/// the others keep their index in the store's answer.
pub fn memory_candidates(user_id: &str, memories: Vec<Memory>, now: i64) -> (candidates: Vec<
    CandidateSpan,
>)
    ensures
        candidates@.len() == kept_memories(memories@).len(),
        forall|j: int|
            0 <= j < candidates@.len() ==> 0 <= #[trigger] kept_memories(memories@)[j]
                < memories@.len() && memories@[kept_memories(memories@)[j]].text@.len() > 0,
        forall|j: int|
            0 <= j < candidates@.len() ==> is_memory_candidate(
                #[trigger] candidates@[j],
                user_id@,
                kept_memories(memories@)[j] as nat,
                memories@[kept_memories(memories@)[j]],
                now,
            ),
{
    proof {
        assert forall|j: int| 0 <= j < kept_memories(memories@).len() implies 0 <= #[trigger] kept_memories(
            memories@,
        )[j] < memories@.len() && memories@[kept_memories(memories@)[j]].text@.len() > 0 by {
            lemma_kept_memories_in_range(memories@, j);
        }
    }
    let mut candidates: Vec<CandidateSpan> = Vec::new();
    let ghost all = memories@;
    let count = memories.len();
    let mut idx: usize = 0;
    for memory in it: memories.into_iter()
        invariant
            it.seq() == all,
            all.len() == count,
            idx == it.index(),
            candidates@.len() == kept_memories(all.take(idx as int)).len(),
            forall|j: int|
                0 <= j < candidates@.len() ==> is_memory_candidate(
                    #[trigger] candidates@[j],
                    user_id@,
                    kept_memories(all.take(idx as int))[j] as nat,
                    all[kept_memories(all.take(idx as int))[j]],
                    now,
                ),
    {
        proof {
            assert(all.take(idx + 1).drop_last() =~= all.take(idx as int));
        }
        if !is_blank_memory(&memory) {
            let candidate = memory_candidate(user_id, idx, memory, now);
            candidates.push(candidate);
        }
        idx += 1;
    }
    proof {
        assert(all.take(all.len() as int) =~= all);
    }
    candidates
}

} // verus!
