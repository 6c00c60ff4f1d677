//! Spoken punctuation ("comma", "new line", ...) turned into symbols.
use vstd::prelude::*;

use super::metadata::{builtin, builtin_metadata, regex_capabilities, streaming_regex_capabilities, RuleCategory, RuleMetadata};
use super::traits::{finish_rule_run, logs_run, FormatterRule};
use crate::clock::instant_now;
use crate::matching::{replace_each, replace_table, table_view};
use crate::pipeline::models::{TransformationRequest, TransformationState};

verus! {

/// The spoken words, as case-insensitive whole-word patterns, and their symbols.
pub open spec fn punctuation_table() -> Seq<(Seq<char>, Seq<char>)> {
    seq![
        (r"(?i)\bcomma\b"@, ","@),
        (r"(?i)\bperiod\b"@, "."@),
        (r"(?i)\bfull stop\b"@, "."@),
        (r"(?i)\bquestion mark\b"@, "?"@),
        (r"(?i)\bexclamation mark\b"@, "!"@),
        (r"(?i)\bcolon\b"@, ":"@),
        (r"(?i)\bsemicolon\b"@, ";"@),
        (r"(?i)\bdash\b"@, "-"@),
        (r"(?i)\bhyphen\b"@, "-"@),
        (r"(?i)\bnew line\b"@, "\n"@),
        (r"(?i)\bnew paragraph\b"@, "\n\n"@),
        (r"(?i)\bopen quote\b"@, "\""@),
        (r"(?i)\bclose quote\b"@, "\""@),
        (r"(?i)\bopen bracket\b"@, "("@),
        (r"(?i)\bclose bracket\b"@, ")"@),
    ]
}

/// Replaces spoken punctuation words with their symbols, in table order.
pub fn convert(text: &str) -> (r: String)
    ensures
        r@ == replace_each(text@, punctuation_table()),
{
    let table = vec![
        (r"(?i)\bcomma\b", ","),
        (r"(?i)\bperiod\b", "."),
        (r"(?i)\bfull stop\b", "."),
        (r"(?i)\bquestion mark\b", "?"),
        (r"(?i)\bexclamation mark\b", "!"),
        (r"(?i)\bcolon\b", ":"),
        (r"(?i)\bsemicolon\b", ";"),
        (r"(?i)\bdash\b", "-"),
        (r"(?i)\bhyphen\b", "-"),
        (r"(?i)\bnew line\b", "\n"),
        (r"(?i)\bnew paragraph\b", "\n\n"),
        (r"(?i)\bopen quote\b", "\""),
        (r"(?i)\bclose quote\b", "\""),
        (r"(?i)\bopen bracket\b", "("),
        (r"(?i)\bclose bracket\b", ")"),
    ];
    proof {
        assert(table_view(table@) =~= punctuation_table());
    }
    replace_table(text, &table)
}

/// The rule that runs `convert` first, on every request.
pub struct PunctuationRule;

impl FormatterRule for PunctuationRule {
    open spec fn obeys_rule_spec(&self) -> bool {
        true
    }

    open spec fn spec_metadata(&self) -> RuleMetadata {
        builtin_metadata("PunctuationRule", RuleCategory::Lexical, 1000, regex_capabilities(false, false, false))
    }

    open spec fn spec_applies(&self, request: TransformationRequest) -> bool {
        true
    }

    open spec fn rewrite(&self, text: Seq<char>, request: TransformationRequest) -> Seq<char> {
        replace_each(text, punctuation_table())
    }

    fn metadata(&self) -> (m: RuleMetadata) {
        builtin("PunctuationRule", RuleCategory::Lexical, 1000, streaming_regex_capabilities(false, false, false))
    }

    fn applies(&self, _request: &TransformationRequest) -> (r: bool) {
        true
    }

    fn apply(&self, state: &mut TransformationState, _request: &TransformationRequest)
        ensures
            logs_run(old(state).diagnostics@, final(state).diagnostics@, "PunctuationRule", old(state).current_text@, final(state).current_text@),
    {
        let started = instant_now();
        let before = state.current_text.clone();
        state.current_text = convert(state.current_text.as_str());
        finish_rule_run(state, "PunctuationRule", before, &started);
    }
}

} // verus!
