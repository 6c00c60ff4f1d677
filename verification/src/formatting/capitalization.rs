//! Capital letters at the start of the text, of sentences and of lines.
use vstd::prelude::*;

use super::metadata::{builtin, builtin_metadata, regex_capabilities, streaming_regex_capabilities, RuleCategory, RuleMetadata};
use super::traits::{finish_rule_run, logs_run, FormatterRule};
use crate::clock::instant_now;
use crate::pipeline::models::{TransformationRequest, TransformationState};
use crate::matching::{
    captures_all_in, group_chars, group_text_of, matches_view, pieces_view, regex_captures_all,
    splice_all, splice_matches, well_formed_matches, Groups,
};
use crate::text::{
    append, char_to_uppercase, chars_of, is_lowercase, slice, spec_is_lowercase, spec_uppercase,
    spec_uppercase_char, string_of, to_uppercase,
};

verus! {

/// A sentence end and the whitespace after it (group 1), then a lowercase
/// ASCII letter (group 2).
pub const SENTENCE_START: &'static str = r"([\.!\?]\s+)([a-z])";

/// A run of newlines (group 1), then a lowercase ASCII letter (group 2).
pub const LINE_START: &'static str = r"(\n+)([a-z])";

/// `s` with its first char uppercased when it is lowercase.
pub open spec fn upper_first(s: Seq<char>) -> Seq<char> {
    if s.len() > 0 && spec_is_lowercase(s[0]) {
        spec_uppercase_char(s[0]) + s.drop_first()
    } else {
        s
    }
}

/// For each match, group 1 followed by group 2 in uppercase.
pub open spec fn raised_pieces(text: Seq<char>, ms: Seq<Groups>) -> Seq<Seq<char>> {
    ms.map_values(|g: Groups| group_text_of(text, g, 1) + spec_uppercase(group_text_of(text, g, 2)))
}

/// `text` with group 2 of each match of `pattern` in uppercase.
pub open spec fn raise_matches(pattern: Seq<char>, text: Seq<char>) -> Seq<char> {
    let ms = regex_captures_all(pattern, text);
    splice_matches(text, ms, raised_pieces(text, ms))
}

/// What `capitalize` gives: the first char, the first letter after each
/// sentence end and the first letter of each line in uppercase.
pub open spec fn spec_capitalize(text: Seq<char>) -> Seq<char> {
    raise_matches(LINE_START@, raise_matches(SENTENCE_START@, upper_first(text)))
}

/// Exec form of `raise_matches`.
fn raise_in(pattern: &str, text: &Vec<char>) -> (r: Vec<char>)
    ensures
        r@ == raise_matches(pattern@, text@),
{
    let ms = captures_all_in(pattern, text);
    let ghost mv = matches_view(ms);
    let mut pieces: Vec<Vec<char>> = Vec::new();
    let mut k: usize = 0;
    while k < ms.len()
        invariant
            mv == matches_view(ms),
            well_formed_matches(mv, text@.len()),
            k <= ms@.len(),
            pieces@.len() == k,
            pieces_view(pieces@) == raised_pieces(text@, mv).take(k as int),
        decreases ms@.len() - k,
    {
        proof {
            assert(mv[k as int] == ms@[k as int]@);
        }
        let mut piece = group_chars(text, &ms[k], 1);
        let second = group_chars(text, &ms[k], 2);
        let raised = to_uppercase(string_of(&second).as_str());
        let raised_chars = chars_of(raised.as_str());
        append(&mut piece, &raised_chars);
        let ghost before = pieces@;
        pieces.push(piece);
        proof {
            assert(pieces_view(pieces@) =~= pieces_view(before).push(pieces@[k as int]@));
            assert(raised_pieces(text@, mv).take(k + 1) =~= raised_pieces(text@, mv).take(k as int).push(
                raised_pieces(text@, mv)[k as int],
            ));
        }
        k = k + 1;
    }
    proof {
        assert(raised_pieces(text@, mv).take(ms@.len() as int) =~= raised_pieces(text@, mv));
    }
    splice_all(text, &ms, &pieces)
}

/// Capitalizes the first char of the text and the first letter of each
/// sentence and line.
pub fn capitalize(text: &str) -> (r: String)
    ensures
        r@ == spec_capitalize(text@),
{
    let chars = chars_of(text);
    let mut first = chars;
    if first.len() > 0 && is_lowercase(first[0]) {
        let up = char_to_uppercase(first[0]);
        let mut raised = chars_of(up.as_str());
        let rest = slice(&first, 1, first.len());
        append(&mut raised, &rest);
        proof {
            assert(rest@ =~= first@.drop_first());
        }
        first = raised;
    }
    let sentences = raise_in(SENTENCE_START, &first);
    let lines = raise_in(LINE_START, &sentences);
    string_of(&lines)
}

/// The cleanup-pass rule that capitalizes, last of all, on every request.
pub struct CapitalizationRule;

impl FormatterRule for CapitalizationRule {
    open spec fn obeys_rule_spec(&self) -> bool {
        true
    }

    open spec fn spec_metadata(&self) -> RuleMetadata {
        builtin_metadata("CapitalizationRule", RuleCategory::Cleanup, 50, regex_capabilities(false, false, false))
    }

    open spec fn spec_applies(&self, request: TransformationRequest) -> bool {
        true
    }

    open spec fn rewrite(&self, text: Seq<char>, request: TransformationRequest) -> Seq<char> {
        spec_capitalize(text)
    }

    fn metadata(&self) -> (m: RuleMetadata) {
        builtin("CapitalizationRule", RuleCategory::Cleanup, 50, streaming_regex_capabilities(false, false, false))
    }

    fn applies(&self, _request: &TransformationRequest) -> (r: bool) {
        true
    }

    fn apply(&self, state: &mut TransformationState, _request: &TransformationRequest)
        ensures
            logs_run(old(state).diagnostics@, final(state).diagnostics@, "CapitalizationRule", old(state).current_text@, final(state).current_text@),
    {
        let started = instant_now();
        let before = state.current_text.clone();
        state.current_text = capitalize(state.current_text.as_str());
        finish_rule_run(state, "CapitalizationRule", before, &started);
    }
}

} // verus!
