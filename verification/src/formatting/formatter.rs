//! Formatting a transcript with the built-in rules.
use vstd::prelude::*;

use super::capitalization::spec_capitalize;
use super::cleanup::spec_cleanup;
use super::context::FormattingContext;
use super::developer::spec_developer;
use super::email_url::spec_format_addresses;
use super::lists::spec_format_lists;
use super::markdown::spec_markdown;
use super::numbers::numbers_table;
use super::pipeline::TransformationPipeline;
use super::punctuation::punctuation_table;
use super::registry::{builtin_passes, builtin_rules, pass_prefix, pass_text, passes_prefix, registry_text, RuleRegistry};
use super::spacing::spec_fix_spacing;
use super::vocabulary::{apply_entries, sort_by_word_count, vocabulary_entries, UserVocabulary};
use crate::matching::replace_each;
use crate::pipeline::models::TransformationRequest;
use crate::pipeline::request::FormattingMode;

verus! {

/// Whether the developer rule runs: in developer mode, or for Rust or Python.
pub open spec fn developer_wanted(mode: FormattingMode, language: Seq<char>) -> bool {
    mode == FormattingMode::Developer || language == "rust"@ || language == "python"@
}

/// Whether the Markdown rule runs: when enabled, or in Markdown mode.
pub open spec fn markdown_wanted(mode: FormattingMode, markdown_enabled: bool) -> bool {
    markdown_enabled || mode == FormattingMode::Markdown
}

/// What the built-in rules make of a text under the given settings: spoken
/// punctuation, then vocabulary, then (when wanted) developer casing and
/// operators, then (when wanted) Markdown, then numbers, addresses and lists,
/// then spacing, cleanup and capitals.
pub open spec fn spec_format_with(
    text: Seq<char>,
    mode: FormattingMode,
    language: Seq<char>,
    markdown_enabled: bool,
    vocabulary: Option<UserVocabulary>,
) -> Seq<char> {
    let lexical = replace_each(text, punctuation_table());
    let normalized = apply_entries(lexical, sort_by_word_count(vocabulary_entries(vocabulary)));
    let developed = if developer_wanted(mode, language) { spec_developer(normalized) } else { normalized };
    let marked = if markdown_wanted(mode, markdown_enabled) { spec_markdown(developed) } else { developed };
    let formatted = spec_format_lists(spec_format_addresses(replace_each(marked, numbers_table())));
    spec_capitalize(spec_cleanup(spec_fix_spacing(formatted)))
}

/// What `format` gives under a context.
pub open spec fn spec_format(text: Seq<char>, ctx: FormattingContext) -> Seq<char> {
    spec_format_with(text, ctx.mode, ctx.language@, ctx.markdown_enabled, ctx.vocabulary)
}

/// Formats `text` with the built-in rules under the context's mode, language,
/// locale, Markdown setting and vocabulary.
pub fn format(text: &str, ctx: &FormattingContext) -> (r: String)
    ensures
        r@ == spec_format(text@, *ctx),
{
    let registry = RuleRegistry::default();
    let pipeline = TransformationPipeline::new(registry);
    let mut request = TransformationRequest::new(text.to_owned());
    request.mode = ctx.mode;
    request.user_context.language = ctx.language.clone();
    request.app_context.locale = ctx.locale.clone();
    request.user_context.markdown_enabled = ctx.markdown_enabled;
    request.user_context.vocabulary = ctx.vocabulary.clone();
    let result = pipeline.transform(&request);
    proof {
        let rules = registry.spec_rules();
        let passes = registry.spec_passes();
        let q = request;
        let t0 = text@;
        reveal_with_fuel(pass_prefix, 11);
        reveal_with_fuel(passes_prefix, 6);
        assert(q.user_context.language@ == ctx.language@);
        assert(q.user_context.markdown_enabled == ctx.markdown_enabled);
        assert(q.mode == ctx.mode);
        assert(vocabulary_entries(q.user_context.vocabulary) == vocabulary_entries(ctx.vocabulary));
        let t1 = pass_text(rules, passes[0], t0, q);
        assert(t1 == replace_each(t0, punctuation_table()));
        let t2 = pass_text(rules, passes[1], t1, q);
        assert(t2 == apply_entries(t1, sort_by_word_count(vocabulary_entries(ctx.vocabulary))));
        let t3 = pass_text(rules, passes[2], t2, q);
        assert(t3 == (if developer_wanted(ctx.mode, ctx.language@) { spec_developer(t2) } else { t2 }));
        let t4 = pass_text(rules, passes[3], t3, q);
        let marked = if markdown_wanted(ctx.mode, ctx.markdown_enabled) { spec_markdown(t3) } else { t3 };
        assert(t4 == spec_format_lists(spec_format_addresses(replace_each(marked, numbers_table()))));
        let t5 = pass_text(rules, passes[4], t4, q);
        assert(t5 == spec_capitalize(spec_cleanup(spec_fix_spacing(t4))));
    }
    result.output
}

} // verus!
