//! Working-set compiler: assembles a bounded, diverse, explainable bundle of
//! text spans for an intent under a hard token budget.
//!
//! Candidates come from several generators and from the memories of the
//! user. They are fused ([`fusion`]), scored ([`scoring`]), ranked
//! ([`ranking`]) and selected by Maximal Marginal Relevance within the
//! budget and under a cap on the share of each source ([`selection`]). The
//! history of the session is taken in ahead of them ([`enrichment`]), and
//! the selected spans get their text from their documents ([`hydration`]).
//! [`context_engine`] ties the steps together.
//!
//! All scores are fixed-point numbers counted in millionths
//! (see [`types::SCORE_SCALE`]), so every decision of the compiler is exact
//! integer arithmetic.
//!
//! The library talks to nobody. It says which address to ask and what to
//! send ([`session_client`], [`memory_client`], [`http_generator`],
//! [`http_lexical_gen`], [`server`]), and takes the answers as plain values.

pub mod context_engine;
pub mod enrichment;
pub mod fusion;
pub mod generators;
pub mod http_generator;
pub mod http_lexical_gen;
pub mod hydration;
pub mod ledger;
pub mod memory_client;
pub mod ranking;
pub mod scoring;
pub mod selection;
pub mod server;
pub mod session_client;
pub mod signals;
pub mod text;
pub mod types;

pub use context_engine::{CompileError, ContextEngine, Gathered, GeneratorOutcome, WorkingSetPlan};
pub use generators::{MockLexicalGen, MockSemanticGen, MockStructuralGen};
pub use http_generator::HttpSemanticGen;
pub use http_lexical_gen::HttpLexicalGen;
pub use hydration::{FileText, LoadedFile};
pub use memory_client::MemoryClient;
pub use session_client::SessionClient;
pub use types::{
    CandidateSpan, CompileRequest, CompileResponse, CompileStats, Compression, DerivedSignals,
    HardFilters, QuerySignal, ScoreChannels, ScoreWeights, SoftPreferences, SourceTokens,
    SourceType, SpanExplanation, SpanKey, SpanMetadata, SpanRef, StructHints, WSItem, WorkingSet,
    SCORE_SCALE,
};
