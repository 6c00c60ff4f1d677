//! Spoken currencies, units and ordinals in figures.
use vstd::prelude::*;

use super::metadata::{builtin, builtin_metadata, regex_capabilities, streaming_regex_capabilities, RuleCategory, RuleMetadata};
use super::traits::{finish_rule_run, logs_run, FormatterRule};
use crate::clock::instant_now;
use crate::matching::{replace_each, replace_table, table_view};
use crate::pipeline::models::{TransformationRequest, TransformationState};

verus! {

/// Amounts with a spoken currency or unit, then spoken ordinals, and what they
/// become (`$$` in a replacement is a literal dollar sign).
pub open spec fn numbers_table() -> Seq<(Seq<char>, Seq<char>)> {
    seq![
        (r"(?i)\b(\d+(?:\.\d+)?)\s+dollars\b"@, "$$$1"@),
        (r"(?i)\b(\d+(?:\.\d+)?)\s+euros\b"@, "€$1"@),
        (r"(?i)\b(\d+(?:\.\d+)?)\s+pounds\b"@, "£$1"@),
        (r"(?i)\b(\d+(?:\.\d+)?)\s+percent\b"@, "$1%"@),
        (r"(?i)\b(\d+(?:\.\d+)?)\s+kilometers\b"@, "$1 km"@),
        (r"(?i)\b(\d+(?:\.\d+)?)\s+kilograms\b"@, "$1 kg"@),
        (r"(?i)\bfirst\b"@, "1st"@),
        (r"(?i)\bsecond\b"@, "2nd"@),
        (r"(?i)\bthird\b"@, "3rd"@),
        (r"(?i)\bfourth\b"@, "4th"@),
        (r"(?i)\bfifth\b"@, "5th"@),
        (r"(?i)\bsixth\b"@, "6th"@),
        (r"(?i)\bseventh\b"@, "7th"@),
        (r"(?i)\beighth\b"@, "8th"@),
        (r"(?i)\bninth\b"@, "9th"@),
        (r"(?i)\btenth\b"@, "10th"@),
    ]
}

pub fn format_numbers(text: &str) -> (r: String)
    ensures
        r@ == replace_each(text@, numbers_table()),
{
    let table = vec![
        (r"(?i)\b(\d+(?:\.\d+)?)\s+dollars\b", "$$$1"),
        (r"(?i)\b(\d+(?:\.\d+)?)\s+euros\b", "€$1"),
        (r"(?i)\b(\d+(?:\.\d+)?)\s+pounds\b", "£$1"),
        (r"(?i)\b(\d+(?:\.\d+)?)\s+percent\b", "$1%"),
        (r"(?i)\b(\d+(?:\.\d+)?)\s+kilometers\b", "$1 km"),
        (r"(?i)\b(\d+(?:\.\d+)?)\s+kilograms\b", "$1 kg"),
        (r"(?i)\bfirst\b", "1st"),
        (r"(?i)\bsecond\b", "2nd"),
        (r"(?i)\bthird\b", "3rd"),
        (r"(?i)\bfourth\b", "4th"),
        (r"(?i)\bfifth\b", "5th"),
        (r"(?i)\bsixth\b", "6th"),
        (r"(?i)\bseventh\b", "7th"),
        (r"(?i)\beighth\b", "8th"),
        (r"(?i)\bninth\b", "9th"),
        (r"(?i)\btenth\b", "10th"),
    ];
    proof {
        assert(table_view(table@) =~= numbers_table());
    }
    replace_table(text, &table)
}

/// The formatting-pass rule for numbers, run on every request.
pub struct NumbersRule;

impl FormatterRule for NumbersRule {
    open spec fn obeys_rule_spec(&self) -> bool {
        true
    }

    open spec fn spec_metadata(&self) -> RuleMetadata {
        builtin_metadata("NumbersRule", RuleCategory::Formatting, 820, regex_capabilities(false, false, false))
    }

    open spec fn spec_applies(&self, request: TransformationRequest) -> bool {
        true
    }

    open spec fn rewrite(&self, text: Seq<char>, request: TransformationRequest) -> Seq<char> {
        replace_each(text, numbers_table())
    }

    fn metadata(&self) -> (m: RuleMetadata) {
        builtin("NumbersRule", RuleCategory::Formatting, 820, streaming_regex_capabilities(false, false, false))
    }

    fn applies(&self, _request: &TransformationRequest) -> (r: bool) {
        true
    }

    fn apply(&self, state: &mut TransformationState, _request: &TransformationRequest)
        ensures
            logs_run(old(state).diagnostics@, final(state).diagnostics@, "NumbersRule", old(state).current_text@, final(state).current_text@),
    {
        let started = instant_now();
        let before = state.current_text.clone();
        state.current_text = format_numbers(state.current_text.as_str());
        finish_rule_run(state, "NumbersRule", before, &started);
    }
}

} // verus!
