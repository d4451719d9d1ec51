//! The query signals of a request: its intent and the keywords of the
//! intent.

use vstd::prelude::*;
use crate::text::{byte_len, text_bytes, texts};
use crate::types::{CompileRequest, DerivedSignals, StructHints};

verus! {

/// The words that `str::split_whitespace` yields for a text.
pub uninterp spec fn whitespace_words(text: Seq<char>) -> Seq<Seq<char>>;

/// The text that `str::to_lowercase` returns for a text.
pub uninterp spec fn lowercase_text(text: Seq<char>) -> Seq<char>;

/// Calls `str::split_whitespace`, which yields the parts of the text between
/// runs of whitespace. The contract only names the result.
#[verifier::external_body]
fn split_words(text: &str) -> (words: Vec<String>)
    ensures
        texts(words@) == whitespace_words(text@),
{
    let mut words = Vec::new();
    for word in text.split_whitespace() {
        words.push(word.to_owned());
    }
    words
}

/// Calls `str::to_lowercase`, which returns the lower-case form of the
/// text. The contract only names the result.
#[verifier::external_body]
fn to_lowercase(text: &str) -> (lower: String)
    ensures
        lower@ == lowercase_text(text@),
{
    text.to_lowercase()
}

/// The texts longer than three bytes, in their order.
pub open spec fn long_only(words: Seq<Seq<char>>) -> Seq<Seq<char>>
    decreases words.len(),
{
    if words.len() == 0 {
        Seq::empty()
    } else {
        let rest = long_only(words.drop_last());
        if text_bytes(words.last()).len() > 3 {
            rest.push(words.last())
        } else {
            rest
        }
    }
}

/// The keywords of an intent: its whitespace-separated words in lower case,
/// without those of three bytes or fewer.
pub open spec fn keywords_of(intent: Seq<char>) -> Seq<Seq<char>> {
    long_only(lowered(whitespace_words(intent)))
}

/// The words of a list in lower case.
pub open spec fn lowered(words: Seq<Seq<char>>) -> Seq<Seq<char>> {
    Seq::new(words.len(), |i: int| lowercase_text(words[i]))
}

/// Keeps the words that are longer than three bytes.
pub fn keep_long_words(words: Vec<String>) -> (kept: Vec<String>)
    ensures
        texts(kept@) == long_only(texts(words@)),
{
    let mut kept: Vec<String> = Vec::new();
    let ghost all = words@;
    for word in it: words.into_iter()
        invariant
            it.seq() == all,
            texts(kept@) == long_only(texts(all.take(it.index() as int))),
    {
        proof {
            let k = it.index() as int;
            assert(texts(all.take(k + 1)).drop_last() =~= texts(all.take(k)));
        }
        if byte_len(&word) > 3 {
            let ghost before = kept@;
            kept.push(word);
            assert(texts(kept@) =~= texts(before).push(word@));
        }
    }
    proof {
        assert(all.take(all.len() as int) =~= all);
    }
    kept
}

/// The number of components of the placeholder embedding of an intent.
pub const INTENT_EMBEDDING_LEN: usize = 768;

/// Derives the query signals of a request: the intent, its keywords, and
/// the task as episode context. The embedding of the intent is a
/// placeholder of zeros, and no structural hints are derived.
pub fn derive_signals(req: &CompileRequest) -> (signals: DerivedSignals)
    ensures
        signals.intent == req.intent,
        signals.intent_embedding@ == Seq::new(INTENT_EMBEDDING_LEN as nat, |i: int| 0i32),
        texts(signals.keywords@) == keywords_of(req.intent@),
        signals.struct_hints.section_patterns@.len() == 0,
        signals.struct_hints.doc_types@.len() == 0,
        signals.episode_context == req.task_id,
{
    let words = split_words(req.intent.as_str());
    let mut lower: Vec<String> = Vec::new();
    let mut i: usize = 0;
    while i < words.len()
        invariant
            i <= words@.len(),
            lower@.len() == i,
            texts(lower@) == lowered(texts(words@).take(i as int)),
        decreases words@.len() - i,
    {
        let ghost before = lower@;
        lower.push(to_lowercase(words[i].as_str()));
        proof {
            let goal = lowered(texts(words@).take(i + 1));
            assert(texts(words@).len() == words@.len());
            assert(texts(words@).take(i + 1).len() == i + 1);
            assert(texts(lower@).len() == goal.len());
            assert forall|j: int| 0 <= j < goal.len() implies texts(lower@)[j] == goal[j] by {
                if j < i {
                    assert(texts(before)[j] == lowered(texts(words@).take(i as int))[j]);
                    assert(texts(words@).take(i as int)[j] == texts(words@).take(i + 1)[j]);
                }
            }
            assert(texts(lower@) =~= goal);
        }
        i += 1;
    }
    assert(texts(words@).take(words@.len() as int) =~= texts(words@));
    let keywords = keep_long_words(lower);
    let mut intent_embedding: Vec<i32> = Vec::new();
    let mut n: usize = 0;
    while n < INTENT_EMBEDDING_LEN
        invariant
            n <= INTENT_EMBEDDING_LEN,
            intent_embedding@ == Seq::new(n as nat, |i: int| 0i32),
        decreases INTENT_EMBEDDING_LEN - n,
    {
        intent_embedding.push(0);
        n += 1;
        assert(intent_embedding@ =~= Seq::new(n as nat, |i: int| 0i32));
    }
    DerivedSignals {
        intent: req.intent.clone(),
        intent_embedding,
        keywords,
        struct_hints: StructHints { section_patterns: Vec::new(), doc_types: Vec::new() },
        episode_context: match &req.task_id {
            Some(task) => Some(task.clone()),
            None => None,
        },
    }
}

} // verus!
