use vstd::prelude::*;

use std::collections::HashMap;
use crate::formatting::context::{AppContext, DocumentContext, FormattingProfile, UserContext};
use super::request::FormattingMode;
use super::changes::ChangeSet;

verus! {

/// The input of a transformation, with everything known about where it goes.
#[derive(Debug, Clone)]
pub struct TransformationRequest {
    pub input: String,
    pub previous_output: Option<String>,
    pub cursor_position: Option<usize>,
    pub selection: Option<(usize, usize)>,
    pub mode: FormattingMode,
    pub profile: FormattingProfile,
    pub app_context: AppContext,
    pub user_context: UserContext,
    pub document_context: DocumentContext,
    pub metadata: HashMap<String, String>,
}

impl TransformationRequest {
    /// A request for `input` in smart mode with the general profile and default contexts.
    pub fn new(input: String) -> (r: Self)
        ensures
            r.input == input,
            r.previous_output is None,
            r.cursor_position is None,
            r.selection is None,
            r.mode == FormattingMode::Smart,
            r.profile == FormattingProfile::General,
            r.app_context.active_application@.len() == 0,
            r.app_context.platform@.len() == 0,
            r.app_context.locale@.len() == 0,
            !r.user_context.developer_mode,
            !r.user_context.markdown_enabled,
            r.user_context.language@ == "en"@,
            r.user_context.vocabulary is None,
            r.document_context.current_buffer@.len() == 0,
            r.document_context.cursor_position is None,
            r.document_context.list_state is None,
            r.metadata@ == Map::<String, String>::empty(),
    {
        Self {
            input,
            previous_output: None,
            cursor_position: None,
            selection: None,
            mode: FormattingMode::Smart,
            profile: FormattingProfile::General,
            app_context: AppContext::default(),
            user_context: UserContext::default(),
            document_context: DocumentContext::default(),
            metadata: HashMap::new(),
        }
    }
}

/// What one rule did to the text.
#[derive(Debug, Clone)]
pub struct Diagnostic {
    pub rule: &'static str,
    pub severity: String,
    pub before: String,
    pub after: String,
    pub duration_ms: u128,
}

/// The text under transformation and what has been done to it.
#[derive(Debug, Clone)]
pub struct TransformationState {
    pub current_text: String,
    pub previous_window: Option<String>,
    pub current_window: Option<String>,
    pub window_start: Option<usize>,
    pub window_end: Option<usize>,
    pub changes: ChangeSet,
    pub diagnostics: Vec<Diagnostic>,
}

impl TransformationState {
    /// A state holding `initial_text`, with no window, change or diagnostic.
    pub fn new(initial_text: String) -> (s: Self)
        ensures
            s.current_text == initial_text,
            s.previous_window is None,
            s.current_window is None,
            s.window_start is None,
            s.window_end is None,
            s.changes.changes@.len() == 0,
            s.diagnostics@.len() == 0,
    {
        Self {
            current_text: initial_text,
            previous_window: None,
            current_window: None,
            window_start: None,
            window_end: None,
            changes: ChangeSet::new(),
            diagnostics: Vec::new(),
        }
    }
}

/// Figures about one run of the pipeline.
#[derive(Debug, Clone, Copy)]
pub struct TransformationMetrics {
    pub duration_ms: u128,
    pub rules_executed: usize,
    pub characters_in: usize,
    pub characters_out: usize,
    pub allocations: usize,
}

/// The output of a transformation.
#[derive(Debug, Clone)]
pub struct TransformationResult {
    pub output: String,
    pub changes: ChangeSet,
    pub diagnostics: Vec<Diagnostic>,
    pub metrics: TransformationMetrics,
}

impl TransformationResult {
    pub fn new(output: String, changes: ChangeSet, diagnostics: Vec<Diagnostic>, metrics: TransformationMetrics) -> (r: Self)
        ensures
            r.output == output,
            r.changes == changes,
            r.diagnostics == diagnostics,
            r.metrics == metrics,
    {
        Self { output, changes, diagnostics, metrics }
    }
}

} // verus!
