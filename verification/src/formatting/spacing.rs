//! Spacing around punctuation.
use vstd::prelude::*;

use super::metadata::{builtin, builtin_metadata, regex_capabilities, streaming_regex_capabilities, RuleCategory, RuleMetadata};
use super::traits::{finish_rule_run, logs_run, FormatterRule};
use crate::clock::instant_now;
use crate::matching::{replace_or_keep, replaced};
use crate::pipeline::models::{TransformationRequest, TransformationState};

verus! {

/// Whitespace before a punctuation mark (the mark is group 1).
pub const SPACE_BEFORE_PUNCTUATION: &'static str = r"\s+([,\.\?\!\:\;])";

/// A mark other than the period directly followed by a char that is not
/// whitespace or punctuation.
pub const MISSING_SPACE_AFTER: &'static str = r"([,\?\!\:\;])([^\s\n\.\,\!\?])";

/// What `fix_spacing` gives: no whitespace before a punctuation mark, then
/// one space after each mark other than the period that is directly followed
/// by a word char (the period is left alone so URLs and emails survive).
pub open spec fn spec_fix_spacing(text: Seq<char>) -> Seq<char> {
    replaced(MISSING_SPACE_AFTER@, replaced(SPACE_BEFORE_PUNCTUATION@, text, "$1"@), "$1 $2"@)
}

pub fn fix_spacing(text: &str) -> (r: String)
    ensures
        r@ == spec_fix_spacing(text@),
{
    let result = replace_or_keep(SPACE_BEFORE_PUNCTUATION, text, "$1");
    replace_or_keep(MISSING_SPACE_AFTER, result.as_str(), "$1 $2")
}

/// The cleanup-pass rule that runs `fix_spacing` on every request.
pub struct SpacingRule;

impl FormatterRule for SpacingRule {
    open spec fn obeys_rule_spec(&self) -> bool {
        true
    }

    open spec fn spec_metadata(&self) -> RuleMetadata {
        builtin_metadata("SpacingRule", RuleCategory::Cleanup, 500, regex_capabilities(false, false, false))
    }

    open spec fn spec_applies(&self, request: TransformationRequest) -> bool {
        true
    }

    open spec fn rewrite(&self, text: Seq<char>, request: TransformationRequest) -> Seq<char> {
        spec_fix_spacing(text)
    }

    fn metadata(&self) -> (m: RuleMetadata) {
        builtin("SpacingRule", RuleCategory::Cleanup, 500, streaming_regex_capabilities(false, false, false))
    }

    fn applies(&self, _request: &TransformationRequest) -> (r: bool) {
        true
    }

    fn apply(&self, state: &mut TransformationState, _request: &TransformationRequest)
        ensures
            logs_run(old(state).diagnostics@, final(state).diagnostics@, "SpacingRule", old(state).current_text@, final(state).current_text@),
    {
        let started = instant_now();
        let before = state.current_text.clone();
        state.current_text = fix_spacing(state.current_text.as_str());
        finish_rule_run(state, "SpacingRule", before, &started);
    }
}

} // verus!
