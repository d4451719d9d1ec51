//! Assembly of the working set: filling in the text of the selected spans
//! from the documents that the caller has read, and the statistics of a
//! compilation.

use vstd::prelude::*;
use vstd::string::*;
use crate::ledger::{
    item_ledger, lemma_spent_on_le_spent, lemma_spent_prefix, spent, spent_on, Ledger,
};
use crate::text::{append_decimal, decimal, texts};
use crate::types::{SourceTokens, SourceType, SpanRef, WSItem, WorkingSet, SCORE_SCALE};

verus! {

/// What reading a document gave.
#[derive(Debug, Clone)]
pub enum FileText {
    /// The text of the document.
    Content(String),
    /// The document could not be read. Holds the reason.
    Unreadable(String),
}

/// A document that the caller has read, or tried to read.
#[derive(Debug, Clone)]
pub struct LoadedFile {
    pub path: String,
    pub text: FileText,
}

/// Session and memory items carry their text from the start; all others
/// take it from their document.
pub open spec fn needs_document(item: WSItem) -> bool {
    item.metadata.source_type != SourceType::Session && item.metadata.source_type
        != SourceType::Memory
}

/// The placeholder for a span that starts behind the end of its document.
pub open spec fn out_of_bounds_text(span: SpanRef, path: Seq<char>, total_chars: nat) -> Seq<char> {
    "[ERROR: Span offset "@ + decimal(span.char_start as nat) + "-"@ + decimal(
        span.char_end as nat,
    ) + " out of bounds for file "@ + path + " ("@ + decimal(total_chars) + " chars)]"@
}

/// The placeholder for a span whose document could not be read.
pub open spec fn unreadable_text(path: Seq<char>, reason: Seq<char>) -> Seq<char> {
    "[ERROR: Could not read "@ + path + " - "@ + reason + "]"@
}

/// The text of a span of a document: the characters from `char_start` up
/// to `char_end` or the end of the document, whichever comes first. A span
/// that starts behind the end of the document gets a placeholder, and so
/// does a span whose document could not be read.
pub open spec fn span_text(span: SpanRef, path: Seq<char>, file: FileText) -> Seq<char> {
    match file {
        FileText::Content(content) => {
            let total = content@.len();
            if span.char_start >= total {
                out_of_bounds_text(span, path, total)
            } else {
                let end = if span.char_end > total {
                    total as int
                } else if span.char_end < span.char_start {
                    span.char_start as int
                } else {
                    span.char_end as int
                };
                content@.subrange(span.char_start as int, end)
            }
        },
        FileText::Unreadable(reason) => unreadable_text(path, reason@),
    }
}

/// Cuts the text of a span out of its document.
pub fn slice_span(span: &SpanRef, path: &String, file: &FileText) -> (text: String)
    ensures
        text@ == span_text(*span, path@, *file),
{
    match file {
        FileText::Content(content) => {
            let total = content.as_str().unicode_len();
            if span.char_start >= total {
                let mut text = "[ERROR: Span offset ".to_owned();
                append_decimal(&mut text, span.char_start as u128);
                text.append("-");
                append_decimal(&mut text, span.char_end as u128);
                text.append(" out of bounds for file ");
                text.append(path.as_str());
                text.append(" (");
                append_decimal(&mut text, total as u128);
                text.append(" chars)]");
                text
            } else {
                let end = if span.char_end > total {
                    total
                } else if span.char_end < span.char_start {
                    span.char_start
                } else {
                    span.char_end
                };
                content.as_str().substring_char(span.char_start, end).to_owned()
            }
        },
        FileText::Unreadable(reason) => {
            let mut text = "[ERROR: Could not read ".to_owned();
            text.append(path.as_str());
            text.append(" - ");
            text.append(reason.as_str());
            text.append("]");
            text
        },
    }
}

/// The first index at which `files` holds the document at `path`.
pub open spec fn file_index(files: Seq<LoadedFile>, path: Seq<char>, start: int) -> Option<int>
    decreases files.len() - start,
{
    if start < 0 || start >= files.len() {
        None
    } else if files[start].path@ == path {
        Some(start)
    } else {
        file_index(files, path, start + 1)
    }
}

/// The reason given for a document that the caller did not hand in.
pub open spec fn not_loaded() -> Seq<char> {
    "document was not loaded"@
}

/// The text that an item has after hydration. An item that needs no
/// document keeps its text. Another takes the text of its span from the
/// first of `files` at its path; where there is none, it gets the
/// placeholder of an unreadable document.
pub open spec fn hydrated_text(item: WSItem, files: Seq<LoadedFile>) -> Seq<char> {
    if !needs_document(item) {
        item.text@
    } else {
        match file_index(files, item.metadata.filepath@, 0) {
            Some(i) => span_text(item.span_ref, item.metadata.filepath@, files[i].text),
            None => unreadable_text(item.metadata.filepath@, not_loaded()),
        }
    }
}

/// An item after hydration: nothing but the text changes.
pub open spec fn is_hydrated(after: WSItem, before: WSItem, files: Seq<LoadedFile>) -> bool {
    &&& after.span_ref == before.span_ref
    &&& after.metadata == before.metadata
    &&& after.text@ == hydrated_text(before, files)
}

fn find_file(files: &Vec<LoadedFile>, path: &String) -> (found: Option<usize>)
    ensures
        match found {
            Some(i) => file_index(files@, path@, 0) == Some(i as int) && i < files@.len(),
            None => file_index(files@, path@, 0) is None,
        },
{
    let mut i: usize = 0;
    while i < files.len()
        invariant
            i <= files@.len(),
            file_index(files@, path@, 0) == file_index(files@, path@, i as int),
        decreases files@.len() - i,
    {
        if files[i].path == *path {
            return Some(i);
        }
        i += 1;
    }
    None
}

/// Gives one item its text.
pub fn hydrate_item(item: WSItem, files: &Vec<LoadedFile>) -> (after: WSItem)
    ensures
        is_hydrated(after, item, files@),
{
    match item.metadata.source_type {
        SourceType::Session | SourceType::Memory => item,
        _ => {
            let text = match find_file(files, &item.metadata.filepath) {
                Some(i) => slice_span(&item.span_ref, &item.metadata.filepath, &files[i].text),
                None => {
                    let mut text = "[ERROR: Could not read ".to_owned();
                    text.append(item.metadata.filepath.as_str());
                    text.append(" - ");
                    text.append("document was not loaded");
                    text.append("]");
                    text
                },
            };
            WSItem { span_ref: item.span_ref, text, metadata: item.metadata }
        },
    }
}

/// The items are the hydrated forms of those before, one for one.
pub open spec fn all_hydrated(after: Seq<WSItem>, before: Seq<WSItem>, files: Seq<LoadedFile>) -> bool {
    &&& after.len() == before.len()
    &&& forall|i: int| 0 <= i < before.len() ==> is_hydrated(#[trigger] after[i], before[i], files)
}

/// Hydration changes no source and no token cost.
pub proof fn lemma_hydration_keeps_ledger(
    after: Seq<WSItem>,
    before: Seq<WSItem>,
    files: Seq<LoadedFile>,
)
    requires
        all_hydrated(after, before, files),
    ensures
        item_ledger(after) == item_ledger(before),
{
    assert(item_ledger(after) =~= item_ledger(before));
}

/// Hydrates the selected spans with their text and sums up their tokens.
pub fn hydrate_workingset(selected: Vec<WSItem>, files: &Vec<LoadedFile>) -> (ws: WorkingSet)
    requires
        spent(item_ledger(selected@)) <= usize::MAX,
    ensures
        all_hydrated(ws.spans@, selected@, files@),
        ws.total_tokens == spent(item_ledger(selected@)),
{
    let mut spans: Vec<WSItem> = Vec::new();
    let mut total_tokens: usize = 0;
    let ghost all = selected@;
    let ghost ledger = item_ledger(all);
    for item in it: selected.into_iter()
        invariant
            it.seq() == all,
            ledger == item_ledger(all),
            spent(ledger) <= usize::MAX,
            all_hydrated(spans@, all.take(it.index() as int), files@),
            total_tokens == spent(ledger.take(it.index() as int)),
    {
        proof {
            let k = it.index() as int;
            assert(ledger.take(k + 1).drop_last() =~= ledger.take(k));
            lemma_spent_prefix(ledger, k + 1);
        }
        total_tokens = total_tokens + item.span_ref.token_cost;
        let hydrated = hydrate_item(item, files);
        spans.push(hydrated);
    }
    proof {
        assert(all.take(all.len() as int) =~= all);
        assert(ledger.take(all.len() as int) =~= ledger);
    }
    WorkingSet { spans, total_tokens }
}

/// The distinct texts of a list, in the order in which they are first seen.
pub open spec fn first_seen(keys: Seq<Seq<char>>) -> Seq<Seq<char>>
    decreases keys.len(),
{
    if keys.len() == 0 {
        Seq::empty()
    } else {
        let rest = first_seen(keys.drop_last());
        if rest.contains(keys.last()) {
            rest
        } else {
            rest.push(keys.last())
        }
    }
}

/// The paths of the documents of the items that need one, item by item.
pub open spec fn document_paths(items: Seq<WSItem>) -> Seq<Seq<char>>
    decreases items.len(),
{
    if items.len() == 0 {
        Seq::empty()
    } else {
        let rest = document_paths(items.drop_last());
        if needs_document(items.last()) {
            rest.push(items.last().metadata.filepath@)
        } else {
            rest
        }
    }
}

fn position_of(list: &Vec<String>, needle: &String) -> (found: Option<usize>)
    ensures
        match found {
            Some(i) => i < list@.len() && list@[i as int]@ == needle@,
            None => !texts(list@).contains(needle@),
        },
{
    let mut i: usize = 0;
    while i < list.len()
        invariant
            i <= list@.len(),
            forall|j: int| 0 <= j < i ==> (#[trigger] list@[j])@ != needle@,
        decreases list@.len() - i,
    {
        if list[i] == *needle {
            return Some(i);
        }
        i += 1;
    }
    assert forall|j: int| 0 <= j < texts(list@).len() implies texts(list@)[j] != needle@ by {
        assert(texts(list@)[j] == list@[j]@);
    }
    None
}

/// The paths of the documents that hydration needs, each once, in the
/// order in which the items name them.
pub fn files_needed(items: &Vec<WSItem>) -> (paths: Vec<String>)
    ensures
        texts(paths@) == first_seen(document_paths(items@)),
{
    let mut paths: Vec<String> = Vec::new();
    let mut k: usize = 0;
    while k < items.len()
        invariant
            k <= items@.len(),
            texts(paths@) == first_seen(document_paths(items@.take(k as int))),
        decreases items@.len() - k,
    {
        proof {
            assert(items@.take(k + 1).drop_last() =~= items@.take(k as int));
        }
        let item = &items[k];
        let needs = match item.metadata.source_type {
            SourceType::Session | SourceType::Memory => false,
            _ => true,
        };
        if needs {
            let ghost keys = document_paths(items@.take(k as int));
            proof {
                assert(document_paths(items@.take(k + 1)) == keys.push(item.metadata.filepath@));
                assert(keys.push(item.metadata.filepath@).drop_last() =~= keys);
            }
            match position_of(&paths, &item.metadata.filepath) {
                Some(i) => {
                    assert(texts(paths@)[i as int] == item.metadata.filepath@);
                },
                None => {
                    let ghost before = paths@;
                    paths.push(item.metadata.filepath.clone());
                    assert(texts(paths@) =~= texts(before).push(item.metadata.filepath@));
                },
            }
        }
        k += 1;
    }
    assert(items@.take(items@.len() as int) =~= items@);
    paths
}

/// For each item, its document version and its token cost.
pub open spec fn version_ledger(items: Seq<WSItem>) -> Ledger {
    items.map_values(|w: WSItem| (w.span_ref.doc_version_id@, w.span_ref.token_cost as nat))
}

/// The document versions of a ledger, entry by entry.
pub open spec fn ledger_keys(ledger: Ledger) -> Seq<Seq<char>> {
    ledger.map_values(|e: (Seq<char>, nat)| e.0)
}

/// The distribution of the tokens of a ledger over its keys: one entry for
/// each key, in the order in which the keys are first seen, with the tokens
/// of all entries of that key.
pub open spec fn is_distribution(dist: Seq<SourceTokens>, ledger: Ledger) -> bool {
    let keys = first_seen(ledger_keys(ledger));
    &&& dist.len() == keys.len()
    &&& forall|i: int|
        0 <= i < dist.len() ==> (#[trigger] dist[i]).doc_version_id@ == keys[i] && dist[i].tokens
            == spent_on(ledger, keys[i])
}

fn entry_of(dist: &Vec<SourceTokens>, key: &String) -> (found: Option<usize>)
    ensures
        match found {
            Some(i) => i < dist@.len() && dist@[i as int].doc_version_id@ == key@,
            None => forall|j: int| 0 <= j < dist@.len() ==> (#[trigger] dist@[j]).doc_version_id@ != key@,
        },
{
    let mut i: usize = 0;
    while i < dist.len()
        invariant
            i <= dist@.len(),
            forall|j: int| 0 <= j < i ==> (#[trigger] dist@[j]).doc_version_id@ != key@,
        decreases dist@.len() - i,
    {
        if dist[i].doc_version_id == *key {
            return Some(i);
        }
        i += 1;
    }
    None
}

/// The tokens that each document version contributes to the working set.
pub fn compute_source_distribution(ws: &WorkingSet) -> (dist: Vec<SourceTokens>)
    requires
        spent(version_ledger(ws.spans@)) <= usize::MAX,
    ensures
        is_distribution(dist@, version_ledger(ws.spans@)),
{
    let mut dist: Vec<SourceTokens> = Vec::new();
    let ghost ledger = version_ledger(ws.spans@);
    let mut k: usize = 0;
    assert(ledger_keys(ledger.take(0)) =~= Seq::empty());
    while k < ws.spans.len()
        invariant
            k <= ws.spans@.len(),
            ledger == version_ledger(ws.spans@),
            spent(ledger) <= usize::MAX,
            is_distribution(dist@, ledger.take(k as int)),
        decreases ws.spans@.len() - k,
    {
        let item = &ws.spans[k];
        let ghost part = ledger.take(k as int);
        let ghost next = ledger.take(k + 1);
        let ghost keys = first_seen(ledger_keys(part));
        let ghost key = item.span_ref.doc_version_id@;
        let ghost before = dist@;
        proof {
            assert(next.drop_last() =~= part);
            assert(next.last() == (key, item.span_ref.token_cost as nat));
            assert(ledger_keys(next).drop_last() =~= ledger_keys(part));
            assert(ledger_keys(next).last() == key);
            lemma_spent_prefix(ledger, k + 1);
            lemma_spent_on_le_spent(next, key);
            lemma_first_seen_distinct(ledger_keys(part));
        }
        match entry_of(&dist, &item.span_ref.doc_version_id) {
            Some(i) => {
                proof {
                    assert(keys[i as int] == key);
                    assert(keys.contains(key));
                }
                let tokens = dist[i].tokens + item.span_ref.token_cost;
                dist[i].tokens = tokens;
                proof {
                    assert forall|j: int| 0 <= j < dist@.len() implies (#[trigger] dist@[j]).doc_version_id@
                        == keys[j] && dist@[j].tokens == spent_on(next, keys[j]) by {
                        if j != i {
                            assert(dist@[j] == before[j]);
                            assert(keys[j] != keys[i as int]);
                        }
                    }
                }
            },
            None => {
                proof {
                    if keys.contains(key) {
                        let j = choose|j: int| 0 <= j < keys.len() && keys[j] == key;
                        assert(before[j].doc_version_id@ == key);
                    }
                    lemma_absent_key_spends_nothing(part, key);
                }
                dist.push(
                    SourceTokens {
                        doc_version_id: item.span_ref.doc_version_id.clone(),
                        tokens: item.span_ref.token_cost,
                    },
                );
                proof {
                    let grown = keys.push(key);
                    assert forall|j: int| 0 <= j < dist@.len() implies (#[trigger] dist@[j]).doc_version_id@
                        == grown[j] && dist@[j].tokens == spent_on(next, grown[j]) by {
                        if j < before.len() {
                            assert(dist@[j] == before[j]);
                            assert(keys[j] != key);
                        }
                    }
                }
            },
        }
        k += 1;
    }
    assert(ledger.take(ws.spans@.len() as int) =~= ledger);
    dist
}

/// No text occurs twice among the first-seen texts of a list.
pub proof fn lemma_first_seen_distinct(keys: Seq<Seq<char>>)
    ensures
        forall|i: int, j: int|
            0 <= i < j < first_seen(keys).len() ==> first_seen(keys)[i] != first_seen(keys)[j],
    decreases keys.len(),
{
    if keys.len() > 0 {
        lemma_first_seen_distinct(keys.drop_last());
        let rest = first_seen(keys.drop_last());
        let all = first_seen(keys);
        assert forall|i: int, j: int| 0 <= i < j < all.len() implies all[i] != all[j] by {
            if j < rest.len() {
                assert(all[i] == rest[i] && all[j] == rest[j]);
            } else {
                assert(!rest.contains(keys.last()));
                assert(all[i] == rest[i]);
            }
        }
    }
}

/// Every key of a ledger is among its first-seen keys.
pub proof fn lemma_first_seen_covers(keys: Seq<Seq<char>>, i: int)
    requires
        0 <= i < keys.len(),
    ensures
        first_seen(keys).contains(keys[i]),
    decreases keys.len(),
{
    let rest = first_seen(keys.drop_last());
    if i < keys.len() - 1 {
        lemma_first_seen_covers(keys.drop_last(), i);
        let j = choose|j: int| 0 <= j < rest.len() && rest[j] == keys[i];
        assert(first_seen(keys)[j] == keys[i]);
    } else if rest.contains(keys.last()) {
    } else {
        assert(first_seen(keys)[rest.len() as int] == keys.last());
    }
}

proof fn lemma_absent_key_spends_nothing(ledger: Ledger, key: Seq<char>)
    requires
        !first_seen(ledger_keys(ledger)).contains(key),
    ensures
        spent_on(ledger, key) == 0,
    decreases ledger.len(),
{
    if ledger.len() > 0 {
        let keys = ledger_keys(ledger);
        assert(keys.drop_last() =~= ledger_keys(ledger.drop_last()));
        lemma_first_seen_covers(keys, keys.len() - 1);
        assert(keys.last() != key);
        let rest = first_seen(keys.drop_last());
        if rest.contains(key) {
            let j = choose|j: int| 0 <= j < rest.len() && rest[j] == key;
            assert(first_seen(keys)[j] == key);
        }
        lemma_absent_key_spends_nothing(ledger.drop_last(), key);
    }
}

/// The share of the budget that is used, in millionths; zero for a budget
/// of zero.
pub open spec fn utilization(total_tokens: nat, budget_tokens: nat) -> int {
    if budget_tokens == 0 {
        0
    } else {
        (total_tokens * SCORE_SCALE) / (budget_tokens as int)
    }
}

/// Computes the share of the budget that the working set uses.
pub fn token_utilization(total_tokens: usize, budget_tokens: usize) -> (share: u64)
    requires
        total_tokens <= budget_tokens,
    ensures
        share == utilization(total_tokens as nat, budget_tokens as nat),
        share <= SCORE_SCALE,
{
    if budget_tokens == 0 {
        0
    } else {
        let scaled: u128 = (total_tokens as u128) * 1_000_000;
        let share: u128 = scaled / (budget_tokens as u128);
        assert(share <= 1_000_000) by (nonlinear_arith)
            requires
                share == scaled / (budget_tokens as u128),
                scaled == total_tokens * 1_000_000,
                0 <= total_tokens <= budget_tokens,
                budget_tokens > 0,
        ;
        share as u64
    }
}

} // verus!
