//! Plain records that the reader-feedback layer exchanges with the query core.
use vstd::prelude::*;

verus! {

/// The direction of a vote on a section of an entry.
#[derive(Debug, Clone, Copy, PartialEq, Eq)]
pub enum VoteDirection {
    Up,
    Down,
}

/// Vote counts on one section of an entry.
#[derive(Debug, Clone, Copy, Default)]
pub struct SectionVoteSummary {
    pub up: u64,
    pub down: u64,
    pub last_vote_ts: u64,
}

impl SectionVoteSummary {
    /// All votes cast, saturating at `u64::MAX`.
    pub fn total(&self) -> (r: u64)
        ensures
            r == if self.up + self.down <= u64::MAX {
                (self.up + self.down) as u64
            } else {
                u64::MAX
            },
    {
        self.up.saturating_add(self.down)
    }
}

/// Why a reader reported an entry.
#[derive(Debug, Clone, Copy, PartialEq, Eq)]
pub enum IssueKind {
    DuplicateWord,
    OffensiveContent,
    BrokenRelation,
    FormattingIssue,
    Other,
}

impl IssueKind {
    /// A short human-readable label.
    pub fn label(&self) -> (r: &'static str)
        ensures
            r@ == match *self {
                IssueKind::DuplicateWord => "Duplicate word"@,
                IssueKind::OffensiveContent => "Offensive content"@,
                IssueKind::BrokenRelation => "Broken relation"@,
                IssueKind::FormattingIssue => "Formatting issue"@,
                IssueKind::Other => "Other"@,
            },
    {
        match self {
            IssueKind::DuplicateWord => "Duplicate word",
            IssueKind::OffensiveContent => "Offensive content",
            IssueKind::BrokenRelation => "Broken relation",
            IssueKind::FormattingIssue => "Formatting issue",
            IssueKind::Other => "Other",
        }
    }
}

/// How often readers followed a relation link to a word.
#[derive(Debug, Clone)]
pub struct RelationClickStat {
    pub target_word: String,
    pub count: u64,
}

/// A lexeme picked for display, with a short summary.
#[derive(Debug, Clone)]
pub struct SpotlightLexeme {
    pub lexeme_id: u32,
    pub word: String,
    pub summary: String,
}

/// One end of a word-ladder challenge.
#[derive(Debug, Clone)]
pub struct ChallengeNode {
    pub lexeme_id: u32,
    pub word: String,
}

/// A reader's progress counters.
#[derive(Debug, Clone, Copy)]
pub struct SessionProgress {
    pub today_unique_words: usize,
    pub consecutive_days: u32,
    pub total_unique_words: u64,
}

} // verus!
