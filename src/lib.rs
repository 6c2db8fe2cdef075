//! An embedded lexical knowledge base: exact lookup, prefix completion,
//! substring scan, weighted fuzzy ranking and bounded graph traversal over a
//! sealed archive of lexeme entries.
//!
//! - `data`: the archive's record layout and its invariants.
//! - `loader`: checks an archive and resolves its short strings.
//! - `index`: the query façade, with lookup, prefix and substring scans.
//! - `entry`: read access to entries, senses and neighbor lists.
//! - `ranking` and `explain`: weighted fuzzy ranking and its breakdowns.
//! - `graph`: bounded breadth-first traversal of the neighbor graph.
//! - `builder`: reading the lexeme file and building the lexicon.
//! - `archive`: sealing corpus entries into an archive with interned pools.
//! - `lexical`: byte-string facts and checks shared by the above.
//! - `bindings`: the outside calls, each with the contract relied on.
//! - `feedback`: plain records of the reader-feedback layer.
use vstd::prelude::*;

pub mod archive;
pub mod bindings;
pub mod builder;
pub mod data;
pub mod explain;
pub mod entry;
pub mod feedback;
pub mod graph;
pub mod index;
pub mod lexical;
pub mod loader;
pub mod ranking;

pub use data::{
    CompressedTextStore, DataStore, EntryRecord, PackedStrings, Range, SenseRecord, StringId,
    TextId,
};
pub use entry::{LexemeEntry, RelationKind, SenseRef};
pub use explain::{FieldContribution, FieldKind, SearchBreakdown};
pub use feedback::{
    ChallengeNode, IssueKind, RelationClickStat, SectionVoteSummary, SessionProgress,
    SpotlightLexeme, VoteDirection,
};
pub use graph::{GraphEdge, GraphNode, GraphOptions, GraphTraversal};
pub use index::LexemeIndex;
pub use ranking::{SearchConfig, SearchResult, SearchSummary};
