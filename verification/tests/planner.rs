use voiceflow_core::formatting::metadata::{RuleCapabilities, RuleCategory, RuleId, RuleMetadata};
use voiceflow_core::formatting::planner::{plan_order, ExecutionPlanner, PlannerError};
use voiceflow_core::formatting::registry::{PipelineBuilder, RuleRegistry};
use voiceflow_core::formatting::traits::FormatterRule;
use voiceflow_core::pipeline::models::{TransformationRequest, TransformationState};

struct Named(RuleMetadata);

impl FormatterRule for Named {
    fn metadata(&self) -> RuleMetadata {
        self.0
    }

    fn applies(&self, _: &TransformationRequest) -> bool {
        true
    }

    fn apply(&self, state: &mut TransformationState, _: &TransformationRequest) {
        state.current_text.push_str(self.0.name);
    }
}

fn caps() -> RuleCapabilities {
    RuleCapabilities {
        streaming_safe: true,
        token_based: false,
        regex_based: true,
        locale_aware: false,
        developer_only: false,
        markdown_only: false,
        incremental_safe: true,
    }
}

fn meta(id: &'static str, category: RuleCategory, priority: u16, depends_on: &'static [RuleId]) -> RuleMetadata {
    RuleMetadata { id: RuleId(id), name: id, version: "1.0", category, priority, capabilities: caps(), depends_on }
}

#[test]
fn plan_orders_by_priority_without_dependencies() {
    let metas = vec![
        meta("low", RuleCategory::Lexical, 1, &[]),
        meta("high", RuleCategory::Lexical, 9, &[]),
        meta("mid", RuleCategory::Lexical, 5, &[]),
    ];
    let order = plan_order(&metas, &[RuleCategory::Lexical]).ok().unwrap();
    assert_eq!(order, vec![1, 2, 0]);
}

#[test]
fn plan_keeps_input_order_on_equal_priority() {
    let metas = vec![meta("first", RuleCategory::Lexical, 3, &[]), meta("second", RuleCategory::Lexical, 3, &[])];
    assert_eq!(plan_order(&metas, &[RuleCategory::Lexical]).ok().unwrap(), vec![0, 1]);
}

#[test]
fn plan_runs_passes_in_order_and_drops_other_categories() {
    let metas = vec![
        meta("clean", RuleCategory::Cleanup, 100, &[]),
        meta("punct", RuleCategory::Lexical, 10, &[]),
        meta("dev", RuleCategory::Developer, 50, &[]),
    ];
    let order = plan_order(&metas, &[RuleCategory::Lexical, RuleCategory::Cleanup, RuleCategory::Lexical]).ok().unwrap();
    assert_eq!(order, vec![1, 0]);
}

#[test]
fn plan_reports_duplicate_ids() {
    let metas = vec![meta("a", RuleCategory::Lexical, 1, &[]), meta("a", RuleCategory::Lexical, 2, &[])];
    match plan_order(&metas, &[RuleCategory::Lexical]) {
        Err(PlannerError::DuplicateRuleId(id)) => assert_eq!(id, "a"),
        _ => panic!("expected a duplicate id"),
    }
}

#[test]
fn plan_reports_self_dependency() {
    let metas = vec![meta("a", RuleCategory::Lexical, 1, &[RuleId("a")])];
    match plan_order(&metas, &[RuleCategory::Lexical]) {
        Err(e) => {
            assert!(matches!(e, PlannerError::SelfDependency(ref id) if id == "a"));
            assert_eq!(e.message(), "Rule 'a' depends on itself");
        },
        _ => panic!("expected a self dependency"),
    }
}

#[test]
fn plan_reports_missing_dependency() {
    let metas = vec![meta("a", RuleCategory::Lexical, 1, &[RuleId("ghost")])];
    match plan_order(&metas, &[RuleCategory::Lexical]) {
        Err(e) => assert_eq!(e.message(), "Rule 'a' depends on missing rule 'ghost'"),
        _ => panic!("expected a missing dependency"),
    }
}

#[test]
fn plan_reports_cross_category_dependency() {
    let metas = vec![meta("a", RuleCategory::Lexical, 1, &[RuleId("b")]), meta("b", RuleCategory::Cleanup, 1, &[])];
    match plan_order(&metas, &[RuleCategory::Lexical]) {
        Err(e) => assert_eq!(e.message(), "Cross-category dependency: 'a' depends on 'b'"),
        _ => panic!("expected a cross-category dependency"),
    }
}

#[test]
fn plan_reports_cycles() {
    let metas = vec![
        meta("a", RuleCategory::Lexical, 1, &[RuleId("b")]),
        meta("b", RuleCategory::Lexical, 2, &[RuleId("a")]),
    ];
    match plan_order(&metas, &[RuleCategory::Lexical]) {
        Err(e) => assert_eq!(e.message(), "Circular dependency detected involving: 'b'"),
        _ => panic!("expected a cycle"),
    }
}

#[test]
fn dependencies_come_first_even_against_priority() {
    let metas = vec![meta("late", RuleCategory::Lexical, 1, &[]), meta("eager", RuleCategory::Lexical, 99, &[RuleId("late")])];
    assert_eq!(plan_order(&metas, &[RuleCategory::Lexical]).ok().unwrap(), vec![0, 1]);
}

#[test]
fn execution_planner_reorders_rules() {
    let rules: Vec<Box<dyn FormatterRule>> = vec![
        Box::new(Named(meta("x", RuleCategory::Lexical, 1, &[]))),
        Box::new(Named(meta("y", RuleCategory::Lexical, 2, &[]))),
    ];
    let planned = ExecutionPlanner::plan(rules, &[RuleCategory::Lexical]).ok().unwrap();
    let names: Vec<&str> = planned.iter().map(|r| r.metadata().name).collect();
    assert_eq!(names, vec!["y", "x"]);
}

#[test]
fn registry_applies_passes_in_order_and_records_changes() {
    let registry = PipelineBuilder::new()
        .add_rule(Box::new(Named(meta("a", RuleCategory::Cleanup, 1, &[]))))
        .add_rule(Box::new(Named(meta("b", RuleCategory::Lexical, 1, &[]))))
        .add_pass(RuleCategory::Lexical)
        .add_pass(RuleCategory::Cleanup)
        .build();
    let request = TransformationRequest::new("x".to_string());
    let mut state = TransformationState::new("x".to_string());
    registry.apply_all(&mut state, &request);
    assert_eq!(state.current_text, "xba");
    assert_eq!(state.changes.changes.len(), 2);
    assert_eq!(state.changes.changes[0].range.end, 1);
    assert_eq!(state.changes.changes[1].range.end, 2);
}

#[test]
fn builtin_registry_plans_in_priority_order() {
    let registry = RuleRegistry::default();
    assert_eq!(
        registry.ordered_rule_names(),
        vec![
            "PunctuationRule",
            "Vocabulary",
            "DeveloperRule",
            "MarkdownRule",
            "NumbersRule",
            "EmailUrlRule",
            "ListsRule",
            "SpacingRule",
            "CleanupRule",
            "CapitalizationRule",
        ]
    );
}

#[test]
fn built_registry_runs_rules_after_their_dependencies() {
    static B_DEPS: [RuleId; 1] = [RuleId("A")];
    static C_DEPS: [RuleId; 1] = [RuleId("B")];
    let registry = PipelineBuilder::new()
        .add_rule(Box::new(Named(meta("D", RuleCategory::Lexical, 5, &[]))))
        .add_rule(Box::new(Named(meta("C", RuleCategory::Lexical, 20, &C_DEPS))))
        .add_rule(Box::new(Named(meta("B", RuleCategory::Lexical, 10, &B_DEPS))))
        .add_rule(Box::new(Named(meta("A", RuleCategory::Lexical, 10, &[]))))
        .add_pass(RuleCategory::Lexical)
        .build();
    assert_eq!(registry.ordered_rule_names(), vec!["A", "B", "C", "D"]);
    let request = TransformationRequest::new(String::new());
    let mut state = TransformationState::new(String::new());
    registry.apply_all(&mut state, &request);
    assert_eq!(state.current_text, "ABCD");
    assert_eq!(state.changes.changes.len(), 4);
}

#[test]
fn unplannable_registry_keeps_the_order_rules_were_added_in() {
    static MISSING: [RuleId; 1] = [RuleId("ghost")];
    let registry = PipelineBuilder::new()
        .add_rule(Box::new(Named(meta("x", RuleCategory::Lexical, 1, &MISSING))))
        .add_rule(Box::new(Named(meta("y", RuleCategory::Lexical, 9, &[]))))
        .add_pass(RuleCategory::Lexical)
        .build();
    let request = TransformationRequest::new(String::new());
    let mut state = TransformationState::new(String::new());
    registry.apply_all(&mut state, &request);
    assert_eq!(state.current_text, "yx");
}

#[test]
fn plan_names_the_first_rule_with_an_earlier_twin() {
    static MISSING: [RuleId; 1] = [RuleId("ghost")];
    let metas = vec![
        meta("x", RuleCategory::Lexical, 1, &MISSING),
        meta("y", RuleCategory::Cleanup, 1, &[]),
        meta("y", RuleCategory::Cleanup, 1, &[]),
        meta("x", RuleCategory::Lexical, 1, &[]),
    ];
    match plan_order(&metas, &[]) {
        Err(PlannerError::DuplicateRuleId(id)) => assert_eq!(id, "y"),
        _ => panic!("expected a duplicate id"),
    }
}

#[test]
fn plan_groups_rules_by_first_pass_of_their_category() {
    let metas = vec![
        meta("c1", RuleCategory::Cleanup, 9, &[]),
        meta("l1", RuleCategory::Lexical, 1, &[]),
        meta("c2", RuleCategory::Cleanup, 1, &[]),
        meta("l2", RuleCategory::Lexical, 5, &[]),
    ];
    let passes = [RuleCategory::Lexical, RuleCategory::Cleanup, RuleCategory::Lexical];
    let order = plan_order(&metas, &passes).ok().unwrap();
    assert_eq!(order, vec![3, 1, 0, 2]);
}

#[test]
fn plan_reports_the_first_bad_dependency_whatever_the_passes() {
    static MISSING: [RuleId; 1] = [RuleId("ghost")];
    static SELF: [RuleId; 1] = [RuleId("b")];
    let metas = vec![
        meta("a", RuleCategory::Cleanup, 1, &MISSING),
        meta("b", RuleCategory::Lexical, 1, &SELF),
    ];
    match plan_order(&metas, &[RuleCategory::Lexical]) {
        Err(e) => assert_eq!(e.message(), "Rule 'a' depends on missing rule 'ghost'"),
        Ok(_) => panic!("expected a missing dependency"),
    }
}

#[test]
fn plan_blames_the_first_category_with_a_cycle() {
    static TO_Y: [RuleId; 1] = [RuleId("y")];
    static TO_X: [RuleId; 1] = [RuleId("x")];
    let metas = vec![
        meta("x", RuleCategory::Cleanup, 1, &TO_Y),
        meta("y", RuleCategory::Cleanup, 1, &TO_X),
        meta("l", RuleCategory::Lexical, 1, &[]),
    ];
    assert_eq!(plan_order(&metas, &[RuleCategory::Lexical]).ok().unwrap(), vec![2]);
    match plan_order(&metas, &[RuleCategory::Lexical, RuleCategory::Cleanup]) {
        Err(e) => assert_eq!(e.message(), "Circular dependency detected involving: 'x'"),
        Ok(_) => panic!("expected a cycle"),
    }
}

#[test]
fn plan_blames_a_rule_waiting_on_a_cycle() {
    static TO_Q: [RuleId; 1] = [RuleId("q")];
    static TO_R: [RuleId; 1] = [RuleId("r")];
    let metas = vec![
        meta("q", RuleCategory::Lexical, 1, &TO_R),
        meta("r", RuleCategory::Lexical, 1, &TO_Q),
        meta("p", RuleCategory::Lexical, 9, &TO_Q),
    ];
    match plan_order(&metas, &[RuleCategory::Lexical]) {
        Err(e) => assert_eq!(e.message(), "Circular dependency detected involving: 'p'"),
        Ok(_) => panic!("expected a cycle"),
    }
}
