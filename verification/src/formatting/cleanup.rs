//! The last tidying of a formatted text.
use vstd::prelude::*;

use super::metadata::{builtin, builtin_metadata, regex_capabilities, streaming_regex_capabilities, RuleCategory, RuleMetadata};
use super::traits::{finish_rule_run, logs_run, FormatterRule};
use crate::clock::instant_now;
use crate::matching::{replace_or_keep, replaced};
use crate::pipeline::models::{TransformationRequest, TransformationState};
use crate::text::{chars_of, string_of, trim, trimmed};

verus! {

/// Two or more spaces.
pub const SPACE_RUN: &'static str = r" {2,}";

/// Three or more newlines.
pub const NEWLINE_RUN: &'static str = r"\n{3,}";

/// The marks whose repeats are collapsed.
pub open spec fn is_repeatable_mark(c: char) -> bool {
    c == '.' || c == ',' || c == '?' || c == '!' || c == ':' || c == ';'
}

/// `s` with each mark that repeats the char kept just before it dropped, so
/// that a run of one mark becomes a single mark.
pub open spec fn collapse_marks(s: Seq<char>) -> Seq<char>
    decreases s.len(),
{
    if s.len() == 0 {
        s
    } else {
        let d = collapse_marks(s.drop_last());
        if is_repeatable_mark(s.last()) && d.len() > 0 && d.last() == s.last() {
            d
        } else {
            d.push(s.last())
        }
    }
}

/// What `cleanup` gives: runs of spaces made one space, runs of three or
/// more newlines made two, repeated marks collapsed, then trimmed.
pub open spec fn spec_cleanup(text: Seq<char>) -> Seq<char> {
    trim(collapse_marks(replaced(NEWLINE_RUN@, replaced(SPACE_RUN@, text, " "@), "\n\n"@)))
}

fn collapse_marks_exec(v: &Vec<char>) -> (r: Vec<char>)
    ensures
        r@ == collapse_marks(v@),
{
    let mut out: Vec<char> = Vec::new();
    let mut i: usize = 0;
    proof {
        assert(v@.take(0) =~= Seq::<char>::empty());
    }
    while i < v.len()
        invariant
            i <= v@.len(),
            out@ == collapse_marks(v@.take(i as int)),
        decreases v@.len() - i,
    {
        let c = v[i];
        let mark = c == '.' || c == ',' || c == '?' || c == '!' || c == ':' || c == ';';
        proof {
            assert(v@.take(i + 1).drop_last() =~= v@.take(i as int));
            assert(v@.take(i + 1).last() == c);
        }
        if !(mark && out.len() > 0 && out[out.len() - 1] == c) {
            out.push(c);
        }
        i = i + 1;
    }
    proof {
        assert(v@.take(v@.len() as int) =~= v@);
    }
    out
}

pub fn cleanup(text: &str) -> (r: String)
    ensures
        r@ == spec_cleanup(text@),
{
    let spaced = replace_or_keep(SPACE_RUN, text, " ");
    let lined = replace_or_keep(NEWLINE_RUN, spaced.as_str(), "\n\n");
    let chars = chars_of(lined.as_str());
    let collapsed = collapse_marks_exec(&chars);
    let out = trimmed(&collapsed);
    string_of(&out)
}

/// The cleanup-pass rule that runs `cleanup` on every request.
pub struct CleanupRule;

impl FormatterRule for CleanupRule {
    open spec fn obeys_rule_spec(&self) -> bool {
        true
    }

    open spec fn spec_metadata(&self) -> RuleMetadata {
        builtin_metadata("CleanupRule", RuleCategory::Cleanup, 100, regex_capabilities(false, false, false))
    }

    open spec fn spec_applies(&self, request: TransformationRequest) -> bool {
        true
    }

    open spec fn rewrite(&self, text: Seq<char>, request: TransformationRequest) -> Seq<char> {
        spec_cleanup(text)
    }

    fn metadata(&self) -> (m: RuleMetadata) {
        builtin("CleanupRule", RuleCategory::Cleanup, 100, streaming_regex_capabilities(false, false, false))
    }

    fn applies(&self, _request: &TransformationRequest) -> (r: bool) {
        true
    }

    fn apply(&self, state: &mut TransformationState, _request: &TransformationRequest)
        ensures
            logs_run(old(state).diagnostics@, final(state).diagnostics@, "CleanupRule", old(state).current_text@, final(state).current_text@),
    {
        let started = instant_now();
        let before = state.current_text.clone();
        state.current_text = cleanup(state.current_text.as_str());
        finish_rule_run(state, "CleanupRule", before, &started);
    }
}

} // verus!
