//! Generators of candidates that hand out a fixed list, for trying the
//! compiler without an index behind it.

use vstd::prelude::*;
use crate::types::{all_well_formed, CandidateSpan, DerivedSignals, HardFilters};

verus! {

/// The first `top_k` candidates of a list, or all of them where it holds
/// fewer.
pub open spec fn is_head_of(out: Seq<CandidateSpan>, list: Seq<CandidateSpan>, top_k: nat) -> bool {
    &&& out.len() == if top_k <= list.len() {
        top_k
    } else {
        list.len()
    }
    &&& forall|i: int| 0 <= i < out.len() ==> (#[trigger] out[i]).same_content(&list[i])
}

/// Copies the first `top_k` candidates of a list.
pub fn head_of(list: &Vec<CandidateSpan>, top_k: usize) -> (out: Vec<CandidateSpan>)
    ensures
        is_head_of(out@, list@, top_k as nat),
        all_well_formed(list@) ==> all_well_formed(out@),
{
    let n = if top_k <= list.len() {
        top_k
    } else {
        list.len()
    };
    let mut out: Vec<CandidateSpan> = Vec::new();
    let mut i: usize = 0;
    while i < n
        invariant
            i <= n,
            n <= list@.len(),
            out@.len() == i,
            forall|j: int| 0 <= j < i ==> (#[trigger] out@[j]).same_content(&list@[j]),
            all_well_formed(list@) ==> all_well_formed(out@),
        decreases n - i,
    {
        let copy = list[i].duplicate();
        proof {
            if all_well_formed(list@) {
                assert(list@[i as int].well_formed());
                assert(copy.well_formed());
            }
        }
        out.push(copy);
        i += 1;
    }
    out
}

/// Semantic generator that hands out a fixed list.
#[derive(Debug, Clone)]
pub struct MockSemanticGen {
    candidates: Vec<CandidateSpan>,
}

impl MockSemanticGen {
    /// The candidates that the generator hands out.
    pub closed spec fn stock(&self) -> Seq<CandidateSpan> {
        self.candidates@
    }

    pub fn new(candidates: Vec<CandidateSpan>) -> (gen: MockSemanticGen)
        ensures
            gen.stock() == candidates@,
    {
        MockSemanticGen { candidates }
    }

    pub fn name(&self) -> (name: &'static str)
        ensures
            name@ == "mock_semantic"@,
    {
        "mock_semantic"
    }

    /// Hands out the first `top_k` candidates, whatever the signals and the
    /// filters.
    pub fn generate(&self, signals: &DerivedSignals, filters: &HardFilters, top_k: usize) -> (out:
        Vec<CandidateSpan>)
        ensures
            is_head_of(out@, self.stock(), top_k as nat),
            all_well_formed(self.stock()) ==> all_well_formed(out@),
    {
        head_of(&self.candidates, top_k)
    }
}

/// Lexical generator that hands out a fixed list.
#[derive(Debug, Clone)]
pub struct MockLexicalGen {
    candidates: Vec<CandidateSpan>,
}

impl MockLexicalGen {
    /// The candidates that the generator hands out.
    pub closed spec fn stock(&self) -> Seq<CandidateSpan> {
        self.candidates@
    }

    pub fn new(candidates: Vec<CandidateSpan>) -> (gen: MockLexicalGen)
        ensures
            gen.stock() == candidates@,
    {
        MockLexicalGen { candidates }
    }

    pub fn name(&self) -> (name: &'static str)
        ensures
            name@ == "mock_lexical"@,
    {
        "mock_lexical"
    }

    /// Hands out the first `top_k` candidates, whatever the signals and the
    /// filters.
    pub fn generate(&self, signals: &DerivedSignals, filters: &HardFilters, top_k: usize) -> (out:
        Vec<CandidateSpan>)
        ensures
            is_head_of(out@, self.stock(), top_k as nat),
            all_well_formed(self.stock()) ==> all_well_formed(out@),
    {
        head_of(&self.candidates, top_k)
    }
}

/// Structural generator that hands out a fixed list.
#[derive(Debug, Clone)]
pub struct MockStructuralGen {
    candidates: Vec<CandidateSpan>,
}

impl MockStructuralGen {
    /// The candidates that the generator hands out.
    pub closed spec fn stock(&self) -> Seq<CandidateSpan> {
        self.candidates@
    }

    pub fn new(candidates: Vec<CandidateSpan>) -> (gen: MockStructuralGen)
        ensures
            gen.stock() == candidates@,
    {
        MockStructuralGen { candidates }
    }

    pub fn name(&self) -> (name: &'static str)
        ensures
            name@ == "mock_structural"@,
    {
        "mock_structural"
    }

    /// Hands out the first `top_k` candidates, whatever the signals and the
    /// filters.
    pub fn generate(&self, signals: &DerivedSignals, filters: &HardFilters, top_k: usize) -> (out:
        Vec<CandidateSpan>)
        ensures
            is_head_of(out@, self.stock(), top_k as nat),
            all_well_formed(self.stock()) ==> all_well_formed(out@),
    {
        head_of(&self.candidates, top_k)
    }
}

} // verus!
