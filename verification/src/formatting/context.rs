use vstd::prelude::*;

use super::vocabulary::UserVocabulary;
use crate::pipeline::request::FormattingMode;

verus! {

#[derive(Debug, Clone, Copy, PartialEq, Eq, Structural)]
pub enum FormattingProfile {
    General,
    Developer,
    Markdown,
    Email,
    Slack,
    Medical,
    Legal,
}

/// Where the text is going.
#[derive(Debug, Clone)]
pub struct AppContext {
    pub active_application: String,
    pub platform: String,
    pub locale: String,
}

impl Default for AppContext {
    fn default() -> (c: Self)
        ensures
            c.active_application@.len() == 0,
            c.platform@.len() == 0,
            c.locale@.len() == 0,
    {
        Self { active_application: String::new(), platform: String::new(), locale: String::new() }
    }
}

/// The user's preferences.
#[derive(Debug, Clone)]
pub struct UserContext {
    pub developer_mode: bool,
    pub markdown_enabled: bool,
    pub language: String,
    pub vocabulary: Option<UserVocabulary>,
}

impl Default for UserContext {
    fn default() -> (c: Self)
        ensures
            !c.developer_mode,
            !c.markdown_enabled,
            c.language@ == "en"@,
            c.vocabulary is None,
    {
        Self { developer_mode: false, markdown_enabled: false, language: "en".to_owned(), vocabulary: None }
    }
}

/// The document being written into.
#[derive(Debug, Clone)]
pub struct DocumentContext {
    pub current_buffer: String,
    pub cursor_position: Option<usize>,
    pub list_state: Option<String>,
}

impl Default for DocumentContext {
    fn default() -> (c: Self)
        ensures
            c.current_buffer@.len() == 0,
            c.cursor_position is None,
            c.list_state is None,
    {
        Self { current_buffer: String::new(), cursor_position: None, list_state: None }
    }
}

/// The settings `formatter::format` runs with.
#[derive(Debug, Clone)]
pub struct FormattingContext {
    pub mode: FormattingMode,
    pub language: String,
    pub locale: String,
    pub markdown_enabled: bool,
    pub vocabulary: Option<UserVocabulary>,
}

impl FormattingContext {
    /// The default settings with the given mode and vocabulary.
    pub fn new(mode: FormattingMode, vocabulary: Option<UserVocabulary>) -> (c: Self)
        ensures
            c.mode == mode,
            c.vocabulary == vocabulary,
            c.language@ == "en"@,
            c.locale@ == "en-US"@,
            !c.markdown_enabled,
    {
        Self { mode, language: "en".to_owned(), locale: "en-US".to_owned(), markdown_enabled: false, vocabulary }
    }
}

impl Default for FormattingContext {
    fn default() -> (c: Self)
        ensures
            c.mode == FormattingMode::Smart,
            c.language@ == "en"@,
            c.locale@ == "en-US"@,
            !c.markdown_enabled,
            c.vocabulary is None,
    {
        Self::new(FormattingMode::Smart, None)
    }
}

} // verus!
