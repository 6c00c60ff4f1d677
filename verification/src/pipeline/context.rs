use vstd::prelude::*;

use super::request::FormattingMode;
use crate::formatting::vocabulary::UserVocabulary;

verus! {

/// The mode and vocabulary a formatter runs with.
#[derive(Debug, Clone)]
pub struct FormatterContext {
    pub mode: FormattingMode,
    pub vocabulary: Option<UserVocabulary>,
}

impl FormatterContext {
    pub fn new(mode: FormattingMode, vocabulary: Option<UserVocabulary>) -> (c: Self)
        ensures
            c.mode == mode,
            c.vocabulary == vocabulary,
    {
        Self { mode, vocabulary }
    }
}

impl Default for FormatterContext {
    fn default() -> (c: Self)
        ensures
            c.mode == FormattingMode::Smart,
            c.vocabulary is None,
    {
        Self { mode: FormattingMode::Smart, vocabulary: None }
    }
}

} // verus!
