use vstd::prelude::*;

verus! {

/// Identifies a change within a change set.
pub type ChangeId = usize;

/// A byte range of the text a change applies to.
#[derive(Debug, Clone, Copy, PartialEq, Eq, Structural)]
pub struct TextRange {
    pub start: usize,
    pub end: usize,
}

/// What a change does to its range.
#[derive(Debug, Clone, PartialEq, Eq)]
pub enum ChangeKind {
    /// Replaces the text of the range with `replacement`.
    Replace { replacement: String },
    /// Inserts `text` at the start of the range.
    Insert { text: String },
    /// Deletes the text of the range.
    Delete,
    /// Moves the text of the range to `to_offset`.
    Move { to_offset: usize },
}

/// Who proposed a change.
#[derive(Debug, Clone, PartialEq, Eq)]
pub enum ChangeSource {
    Rule(String),
}

/// How sure the proposer of a change is.
#[derive(Debug, Clone, Copy, PartialEq, Eq, Structural)]
pub enum Confidence {
    Certain,
}

/// One edit of a text.
#[derive(Debug, Clone, PartialEq, Eq)]
pub struct Change {
    pub id: ChangeId,
    pub kind: ChangeKind,
    pub range: TextRange,
    pub source: ChangeSource,
    pub confidence: Confidence,
}

/// Edits to apply to a text, in order.
#[derive(Debug, Clone)]
pub struct ChangeSet {
    pub changes: Vec<Change>,
}

impl ChangeSet {
    pub fn new() -> (c: Self)
        ensures
            c.changes@.len() == 0,
    {
        Self { changes: Vec::new() }
    }

    pub fn add(&mut self, change: Change)
        ensures
            final(self).changes@ == old(self).changes@.push(change),
    {
        self.changes.push(change);
    }

    pub fn is_empty(&self) -> (r: bool)
        ensures
            r == (self.changes@.len() == 0),
    {
        self.changes.len() == 0
    }
}

impl Default for ChangeSet {
    fn default() -> (c: Self)
        ensures
            c.changes@.len() == 0,
    {
        Self::new()
    }
}

} // verus!
