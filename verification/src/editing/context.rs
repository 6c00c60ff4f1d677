use vstd::prelude::*;

verus! {

/// One rewrite that a correction rule applied, with the text before and after it.
#[derive(Debug, Clone, PartialEq)]
pub enum RewriteOperation {
    InlineCorrection { before: String, after: String },
    FalseStartRecovery { before: String, after: String },
    UndoCommand { before: String, after: String },
    ReplaceCommand { before: String, after: String },
    DeleteCommand { before: String, after: String },
    DeleteLastSentence { before: String, after: String },
    ReplaceLastWord { before: String, after: String },
}

/// The kind of a `RewriteOperation`, without its texts.
#[derive(PartialEq, Eq, Structural)]
pub enum OperationKind {
    InlineCorrection,
    FalseStartRecovery,
    UndoCommand,
    ReplaceCommand,
    DeleteCommand,
    DeleteLastSentence,
    ReplaceLastWord,
}

/// A correction trigger seen at the end of a partial transcript, waiting for what follows.
#[derive(Debug, PartialEq)]
pub struct PendingCorrection {
    pub trigger: String,
    pub target_span: (usize, usize),
}

impl Clone for PendingCorrection {
    fn clone(&self) -> (r: Self)
        ensures
            r.trigger@ == self.trigger@,
            r.target_span == self.target_span,
    {
        PendingCorrection { trigger: self.trigger.clone(), target_span: self.target_span }
    }
}

#[derive(Debug, Clone, Copy, PartialEq, Eq, Structural)]
pub enum EntityType {
    Time,
    Date,
    Number,
    Phone,
    Email,
    Location,
    Unknown,
}

#[derive(Debug, Clone, Copy, PartialEq, Eq, Structural)]
pub enum CorrectionConfidence {
    High,
    Medium,
    Low,
}

/// State that the correction rules carry from one partial transcript to the next.
#[derive(Debug, Clone)]
pub struct RewriteContext {
    pub pending_correction: Option<PendingCorrection>,
    pub history: Vec<RewriteOperation>,
}

/// Whether `op` is of kind `kind` and records the texts `before` and `after`.
pub open spec fn op_records(op: RewriteOperation, kind: OperationKind, before: Seq<char>, after: Seq<char>) -> bool {
    match op {
        RewriteOperation::InlineCorrection { before: b, after: a } => kind == OperationKind::InlineCorrection && b@ == before && a@ == after,
        RewriteOperation::FalseStartRecovery { before: b, after: a } => kind == OperationKind::FalseStartRecovery && b@ == before && a@ == after,
        RewriteOperation::UndoCommand { before: b, after: a } => kind == OperationKind::UndoCommand && b@ == before && a@ == after,
        RewriteOperation::ReplaceCommand { before: b, after: a } => kind == OperationKind::ReplaceCommand && b@ == before && a@ == after,
        RewriteOperation::DeleteCommand { before: b, after: a } => kind == OperationKind::DeleteCommand && b@ == before && a@ == after,
        RewriteOperation::DeleteLastSentence { before: b, after: a } => kind == OperationKind::DeleteLastSentence && b@ == before && a@ == after,
        RewriteOperation::ReplaceLastWord { before: b, after: a } => kind == OperationKind::ReplaceLastWord && b@ == before && a@ == after,
    }
}

/// One logged rewrite: its kind and the text before and after it.
pub type LogEntry = (OperationKind, Seq<char>, Seq<char>);

/// The entries of `trace`, all of kind `kind`.
pub open spec fn tagged(kind: OperationKind, trace: Seq<(Seq<char>, Seq<char>)>) -> Seq<LogEntry> {
    trace.map_values(|e: (Seq<char>, Seq<char>)| (kind, e.0, e.1))
}

/// `new` is `old` followed by one operation per entry of `entries`, each of
/// the entry's kind and recording its texts.
pub open spec fn history_extends(
    old: Seq<RewriteOperation>,
    new: Seq<RewriteOperation>,
    entries: Seq<LogEntry>,
) -> bool {
    &&& new.len() == old.len() + entries.len()
    &&& forall|i: int| 0 <= i < old.len() ==> new[i] == old[i]
    &&& forall|j: int|
        0 <= j < entries.len() ==> op_records(#[trigger] new[old.len() + j], entries[j].0, entries[j].1, entries[j].2)
}

/// Extending is transitive: two extensions in a row extend by both entry lists.
pub proof fn lemma_history_extends_trans(
    a: Seq<RewriteOperation>,
    b: Seq<RewriteOperation>,
    c: Seq<RewriteOperation>,
    e1: Seq<LogEntry>,
    e2: Seq<LogEntry>,
)
    requires
        history_extends(a, b, e1),
        history_extends(b, c, e2),
    ensures
        history_extends(a, c, e1 + e2),
{
    assert forall|j: int| 0 <= j < (e1 + e2).len() implies op_records(#[trigger] c[a.len() + j], (e1 + e2)[j].0, (e1 + e2)[j].1, (e1 + e2)[j].2) by {
        if j < e1.len() {
            assert(c[a.len() + j] == b[a.len() + j]);
        } else {
            assert(c[a.len() + j] == c[b.len() + (j - e1.len())]);
        }
    }
}

/// Pushing one operation extends the history by its entry.
pub proof fn lemma_history_push(
    a: Seq<RewriteOperation>,
    b: Seq<RewriteOperation>,
    entries: Seq<LogEntry>,
    op: RewriteOperation,
    e: LogEntry,
)
    requires
        history_extends(a, b, entries),
        op_records(op, e.0, e.1, e.2),
    ensures
        history_extends(a, b.push(op), entries.push(e)),
{
    assert forall|j: int| 0 <= j < entries.push(e).len() implies op_records(#[trigger] b.push(op)[a.len() + j], entries.push(e)[j].0, entries.push(e)[j].1, entries.push(e)[j].2) by {
        if j < entries.len() {
            assert(b.push(op)[a.len() + j] == b[a.len() + j]);
        }
    }
}

/// Builds the operation of kind `kind` that records `before` and `after`.
pub fn make_operation(kind: OperationKind, before: &[char], after: &[char]) -> (op: RewriteOperation)
    ensures
        op_records(op, kind, before@, after@),
{
    let b = crate::text::string_of(before);
    let a = crate::text::string_of(after);
    match kind {
        OperationKind::InlineCorrection => RewriteOperation::InlineCorrection { before: b, after: a },
        OperationKind::FalseStartRecovery => RewriteOperation::FalseStartRecovery { before: b, after: a },
        OperationKind::UndoCommand => RewriteOperation::UndoCommand { before: b, after: a },
        OperationKind::ReplaceCommand => RewriteOperation::ReplaceCommand { before: b, after: a },
        OperationKind::DeleteCommand => RewriteOperation::DeleteCommand { before: b, after: a },
        OperationKind::DeleteLastSentence => RewriteOperation::DeleteLastSentence { before: b, after: a },
        OperationKind::ReplaceLastWord => RewriteOperation::ReplaceLastWord { before: b, after: a },
    }
}

impl RewriteContext {
    /// A context with nothing pending and an empty history.
    pub fn new() -> (c: Self)
        ensures
            c.pending_correction is None,
            c.history@.len() == 0,
    {
        Self { pending_correction: None, history: Vec::new() }
    }
}

impl Default for RewriteContext {
    fn default() -> (c: Self)
        ensures
            c.pending_correction is None,
            c.history@.len() == 0,
    {
        Self::new()
    }
}

} // verus!
