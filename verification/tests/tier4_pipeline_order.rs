use voiceflow_core::formatting::metadata::{RuleCapabilities, RuleCategory, RuleId, RuleMetadata};
use voiceflow_core::formatting::registry::PipelineBuilder;
use voiceflow_core::formatting::traits::FormatterRule;
use voiceflow_core::pipeline::models::{TransformationRequest, TransformationState};

struct MockRule(RuleMetadata);

impl FormatterRule for MockRule {
    fn metadata(&self) -> RuleMetadata {
        self.0
    }

    fn applies(&self, _: &TransformationRequest) -> bool {
        true
    }

    fn apply(&self, _: &mut TransformationState, _: &TransformationRequest) {}
}

fn caps() -> RuleCapabilities {
    RuleCapabilities {
        streaming_safe: true,
        token_based: false,
        regex_based: true,
        locale_aware: false,
        developer_only: false,
        markdown_only: false,
        incremental_safe: true,
    }
}

fn meta(id: &'static str, priority: u16, depends_on: &'static [RuleId]) -> RuleMetadata {
    RuleMetadata {
        id: RuleId(id),
        name: id,
        version: "1.0",
        category: RuleCategory::Lexical,
        priority,
        capabilities: caps(),
        depends_on,
    }
}

#[test]
fn test_pipeline_execution_order() {
    // Even if added in reverse order, topological sort should resolve it
    let registry = PipelineBuilder::new()
        .add_rule(Box::new(MockRule(meta("D", 5, &[]))))
        .add_rule(Box::new(MockRule(meta("C", 20, &[RuleId("B")]))))
        .add_rule(Box::new(MockRule(meta("B", 10, &[RuleId("A")]))))
        .add_rule(Box::new(MockRule(meta("A", 10, &[]))))
        .add_pass(RuleCategory::Lexical)
        .build();

    let ordered = registry.ordered_rule_names();
    assert_eq!(ordered, vec!["A", "B", "C", "D"]);
}
