use vstd::prelude::*;

verus! {

/// How a transcript is formatted.
#[derive(Debug, Clone, Copy, PartialEq, Eq, Structural)]
pub enum FormattingMode {
    Raw,
    Smart,
    Email,
    Chat,
    Document,
    Developer,
    Markdown,
}

impl Default for FormattingMode {
    fn default() -> (m: Self)
        ensures
            m == FormattingMode::Smart,
    {
        FormattingMode::Smart
    }
}

/// How strongly the language model may rewrite the text.
#[derive(Debug, Clone, Copy, PartialEq, Eq, Structural)]
pub enum RewriteMode {
    Off,
    Light,
    Standard,
    Aggressive,
}

impl Default for RewriteMode {
    fn default() -> (m: Self)
        ensures
            m == RewriteMode::Off,
    {
        RewriteMode::Off
    }
}

#[derive(Debug, Clone, Copy)]
pub struct ProcessingOptions {
    pub formatting_mode: FormattingMode,
    pub rewrite_mode: RewriteMode,
    pub auto_capitalize: bool,
    pub auto_punctuation: bool,
    pub vocabulary_enabled: bool,
    pub llm_enabled: bool,
}

impl Default for ProcessingOptions {
    fn default() -> (o: Self)
        ensures
            o.formatting_mode == FormattingMode::Smart,
            o.rewrite_mode == RewriteMode::Off,
            !o.auto_capitalize,
            !o.auto_punctuation,
            !o.vocabulary_enabled,
            !o.llm_enabled,
    {
        ProcessingOptions {
            formatting_mode: FormattingMode::Smart,
            rewrite_mode: RewriteMode::Off,
            auto_capitalize: false,
            auto_punctuation: false,
            vocabulary_enabled: false,
            llm_enabled: false,
        }
    }
}

} // verus!
