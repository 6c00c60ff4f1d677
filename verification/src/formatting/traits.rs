use vstd::prelude::*;

use super::metadata::RuleMetadata;
use crate::clock::millis_since;
use crate::pipeline::models::{Diagnostic, TransformationRequest, TransformationState};
use std::time::Instant;

verus! {

/// A formatting rule that the pipeline runs on a transformation state.
pub trait FormatterRule {
    /// Whether the rule keeps the promises below. The rules of this library
    /// do; a rule that does not say so promises nothing.
    open spec fn obeys_rule_spec(&self) -> bool {
        false
    }

    /// What the rule declares about itself (unknown unless the rule says).
    open spec fn spec_metadata(&self) -> RuleMetadata {
        arbitrary()
    }

    /// Whether the rule runs for a request (unknown unless the rule says).
    open spec fn spec_applies(&self, request: TransformationRequest) -> bool {
        arbitrary()
    }

    /// What the rule makes of a text under a request (unknown unless the rule says).
    open spec fn rewrite(&self, text: Seq<char>, request: TransformationRequest) -> Seq<char> {
        arbitrary()
    }

    fn metadata(&self) -> (m: RuleMetadata)
        ensures
            self.obeys_rule_spec() ==> m == self.spec_metadata(),
    ;

    fn applies(&self, request: &TransformationRequest) -> (r: bool)
        ensures
            self.obeys_rule_spec() ==> r == self.spec_applies(*request),
    ;

    /// Rewrites the text of the state; the recorded changes and the
    /// streaming window stay as they are.
    fn apply(&self, state: &mut TransformationState, request: &TransformationRequest)
        ensures
            self.obeys_rule_spec() ==> {
                &&& final(state).current_text@ == self.rewrite(old(state).current_text@, *request)
                &&& final(state).changes == old(state).changes
                &&& final(state).previous_window == old(state).previous_window
                &&& final(state).current_window == old(state).current_window
                &&& final(state).window_start == old(state).window_start
                &&& final(state).window_end == old(state).window_end
            },
    ;
}

/// Whether every rule keeps its promises.
pub open spec fn rules_obey(rules: Seq<Box<dyn FormatterRule>>) -> bool {
    forall|i: int| 0 <= i < rules.len() ==> (#[trigger] rules[i]).obeys_rule_spec()
}

/// The diagnostics after a run of rule `rule` that turned `before` into
/// `after`: one more entry, at severity "info", when the text changed.
pub open spec fn logs_run(old_log: Seq<Diagnostic>, new_log: Seq<Diagnostic>, rule: &'static str, before: Seq<char>, after: Seq<char>) -> bool {
    if before == after {
        new_log == old_log
    } else {
        &&& new_log.len() == old_log.len() + 1
        &&& new_log.take(old_log.len() as int) == old_log
        &&& new_log.last().rule == rule
        &&& new_log.last().severity@ == "info"@
        &&& new_log.last().before@ == before
        &&& new_log.last().after@ == after
    }
}

/// Ends a rule's run: logs a diagnostic, with the time taken since
/// `started`, when the rule changed the text from `before`.
pub fn finish_rule_run(state: &mut TransformationState, rule: &'static str, before: String, started: &Instant)
    ensures
        final(state).current_text == old(state).current_text,
        final(state).changes == old(state).changes,
        final(state).previous_window == old(state).previous_window,
        final(state).current_window == old(state).current_window,
        final(state).window_start == old(state).window_start,
        final(state).window_end == old(state).window_end,
        logs_run(old(state).diagnostics@, final(state).diagnostics@, rule, before@, old(state).current_text@),
{
    let duration_ms = millis_since(started);
    if !(before == state.current_text) {
        let after = state.current_text.clone();
        state.diagnostics.push(Diagnostic {
            rule,
            severity: "info".to_owned(),
            before,
            after,
            duration_ms,
        });
        proof {
            assert(state.diagnostics@.take(old(state).diagnostics@.len() as int) =~= old(state).diagnostics@);
        }
    }
}

} // verus!

