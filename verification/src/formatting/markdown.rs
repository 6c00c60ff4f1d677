//! Dictated Markdown ("heading one", "start bold", ...).
use vstd::prelude::*;

use super::metadata::{builtin, builtin_metadata, regex_capabilities, streaming_regex_capabilities, RuleCategory, RuleMetadata};
use super::traits::{finish_rule_run, logs_run, FormatterRule};
use crate::clock::instant_now;
use crate::matching::{replace_each, replace_table, table_view};
use crate::pipeline::models::{TransformationRequest, TransformationState};
use crate::pipeline::request::FormattingMode;
use crate::text::{chars_of, slice, string_of};

verus! {

/// The spoken Markdown markers and what they become.
pub open spec fn markdown_table() -> Seq<(Seq<char>, Seq<char>)> {
    seq![
        (r"(?i)(?:^|\n)\s*heading one\b\s*"@, "\n# "@),
        (r"(?i)(?:^|\n)\s*heading two\b\s*"@, "\n## "@),
        (r"(?i)(?:^|\n)\s*heading three\b\s*"@, "\n### "@),
        (r"(?i)(?:^|\n)\s*heading four\b\s*"@, "\n#### "@),
        (r"(?i)\bstart bold\b"@, "**"@),
        (r"(?i)\bend bold\b"@, "**"@),
        (r"(?i)\bstart italic\b"@, "*"@),
        (r"(?i)\bend italic\b"@, "*"@),
        (r"(?i)\bstart code block\b"@, "\n```\n"@),
        (r"(?i)\bend code block\b"@, "\n```\n"@),
        (r"(?i)\bbacktick\b"@, "`"@),
    ]
}

/// `s` without one leading newline.
pub open spec fn drop_leading_newline(s: Seq<char>) -> Seq<char> {
    if s.len() > 0 && s[0] == '\n' {
        s.drop_first()
    } else {
        s
    }
}

/// What the Markdown rule makes of a text: each marker replaced in table
/// order, then one leading newline (left by a heading at the start) removed.
pub open spec fn spec_markdown(text: Seq<char>) -> Seq<char> {
    drop_leading_newline(replace_each(text, markdown_table()))
}

/// Whether the Markdown rule runs for a request.
pub open spec fn wants_markdown(request: TransformationRequest) -> bool {
    request.user_context.markdown_enabled || request.mode == FormattingMode::Markdown
}

pub fn format_markdown(text: &str) -> (r: String)
    ensures
        r@ == spec_markdown(text@),
{
    let table = vec![
        (r"(?i)(?:^|\n)\s*heading one\b\s*", "\n# "),
        (r"(?i)(?:^|\n)\s*heading two\b\s*", "\n## "),
        (r"(?i)(?:^|\n)\s*heading three\b\s*", "\n### "),
        (r"(?i)(?:^|\n)\s*heading four\b\s*", "\n#### "),
        (r"(?i)\bstart bold\b", "**"),
        (r"(?i)\bend bold\b", "**"),
        (r"(?i)\bstart italic\b", "*"),
        (r"(?i)\bend italic\b", "*"),
        (r"(?i)\bstart code block\b", "\n```\n"),
        (r"(?i)\bend code block\b", "\n```\n"),
        (r"(?i)\bbacktick\b", "`"),
    ];
    proof {
        assert(table_view(table@) =~= markdown_table());
    }
    let replaced = replace_table(text, &table);
    let chars = chars_of(replaced.as_str());
    if chars.len() > 0 && chars[0] == '\n' {
        let rest = slice(&chars, 1, chars.len());
        proof {
            assert(rest@ =~= chars@.drop_first());
        }
        string_of(&rest)
    } else {
        replaced
    }
}

/// The formatting-pass rule for Markdown, run when Markdown is enabled or requested.
pub struct MarkdownRule;

impl FormatterRule for MarkdownRule {
    open spec fn obeys_rule_spec(&self) -> bool {
        true
    }

    open spec fn spec_metadata(&self) -> RuleMetadata {
        builtin_metadata("MarkdownRule", RuleCategory::Formatting, 850, regex_capabilities(false, true, false))
    }

    open spec fn spec_applies(&self, request: TransformationRequest) -> bool {
        wants_markdown(request)
    }

    open spec fn rewrite(&self, text: Seq<char>, request: TransformationRequest) -> Seq<char> {
        spec_markdown(text)
    }

    fn metadata(&self) -> (m: RuleMetadata) {
        builtin("MarkdownRule", RuleCategory::Formatting, 850, streaming_regex_capabilities(false, true, false))
    }

    fn applies(&self, request: &TransformationRequest) -> (r: bool) {
        request.user_context.markdown_enabled || request.mode == FormattingMode::Markdown
    }

    fn apply(&self, state: &mut TransformationState, _request: &TransformationRequest)
        ensures
            logs_run(old(state).diagnostics@, final(state).diagnostics@, "MarkdownRule", old(state).current_text@, final(state).current_text@),
    {
        let started = instant_now();
        let before = state.current_text.clone();
        state.current_text = format_markdown(state.current_text.as_str());
        finish_rule_run(state, "MarkdownRule", before, &started);
    }
}

} // verus!
