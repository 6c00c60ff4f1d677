//! One run of a rule registry over a request, with its figures.
use vstd::prelude::*;

use super::registry::{records_edits, registry_edits, registry_text, RuleRegistry};
use super::traits::rules_obey;
use crate::clock::{instant_now, millis_since};
use crate::pipeline::models::{TransformationMetrics, TransformationRequest, TransformationResult, TransformationState};
use crate::text::{byte_len, utf8_len};

verus! {

/// Runs a registry's rules over requests.
pub struct TransformationPipeline {
    registry: RuleRegistry,
}

impl TransformationPipeline {
    /// The registry the pipeline runs.
    pub closed spec fn spec_registry(&self) -> RuleRegistry {
        self.registry
    }

    pub fn new(registry: RuleRegistry) -> (p: Self)
        ensures
            p.spec_registry() == registry,
    {
        Self { registry }
    }

    /// Runs the registry over the request's input: the output is the text
    /// after every pass, the changes are those the registry recorded (for
    /// rules that keep their promises), and the metrics count the diagnostics
    /// and the bytes in and out.
    pub fn transform(&self, request: &TransformationRequest) -> (r: TransformationResult)
        ensures
            rules_obey(self.spec_registry().spec_rules()) ==> r.output@ == registry_text(
                self.spec_registry().spec_rules(),
                self.spec_registry().spec_passes(),
                request.input@,
                *request,
            ),
            rules_obey(self.spec_registry().spec_rules()) ==> records_edits(
                Seq::empty(),
                r.changes.changes@,
                registry_edits(self.spec_registry().spec_rules(), self.spec_registry().spec_passes(), request.input@, *request),
            ),
            r.metrics.rules_executed == r.diagnostics@.len(),
            r.metrics.characters_in == utf8_len(request.input@),
            r.metrics.characters_out == utf8_len(r.output@),
            r.metrics.allocations == 0,
    {
        let start_time = instant_now();
        let chars_in = byte_len(request.input.as_str());
        let mut state = TransformationState::new(request.input.clone());
        proof {
            assert(state.changes.changes@ =~= Seq::empty());
        }
        self.registry.apply_all(&mut state, request);
        let elapsed = millis_since(&start_time);
        let chars_out = byte_len(state.current_text.as_str());
        let metrics = TransformationMetrics {
            duration_ms: elapsed,
            rules_executed: state.diagnostics.len(),
            characters_in: chars_in,
            characters_out: chars_out,
            allocations: 0,
        };
        TransformationResult::new(state.current_text, state.changes, state.diagnostics, metrics)
    }
}

} // verus!
