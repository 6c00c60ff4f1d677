//! The formatting rules of a pipeline, and the passes they run in.
use vstd::prelude::*;

use super::capitalization::CapitalizationRule;
use super::cleanup::CleanupRule;
use super::developer::DeveloperRule;
use super::email_url::EmailUrlRule;
use super::lists::ListsRule;
use super::markdown::MarkdownRule;
use super::metadata::{RuleCategory, RuleMetadata};
use super::numbers::NumbersRule;
use super::planner::{arrange, collect_metadata, reported_metadata, lemma_plan_complete, lemma_plan_in_range, metas_of, plan_order, spec_plan};
use super::punctuation::PunctuationRule;
use super::spacing::SpacingRule;
use super::traits::{rules_obey, FormatterRule};
use super::vocabulary::VocabularyRule;
use crate::pipeline::changes::{Change, ChangeKind, ChangeSource, Confidence, TextRange};
use crate::pipeline::models::{TransformationRequest, TransformationState};
use crate::text::{byte_len, utf8_len};

verus! {

/// A change a rule made in a run: the text before and after it, and the rule's name.
pub type Edit = (Seq<char>, Seq<char>, &'static str);

/// The text after the first `n` rules of a pass: each one of the pass's
/// category that applies to the request, in order.
pub open spec fn pass_prefix(rules: Seq<Box<dyn FormatterRule>>, pass: RuleCategory, text: Seq<char>, request: TransformationRequest, n: int) -> Seq<char>
    decreases n,
{
    if n <= 0 {
        text
    } else {
        let t = pass_prefix(rules, pass, text, request, n - 1);
        if rules[n - 1].spec_metadata().category == pass && rules[n - 1].spec_applies(request) {
            rules[n - 1].rewrite(t, request)
        } else {
            t
        }
    }
}

/// The changes made by the first `n` rules of a pass, in order.
pub open spec fn pass_prefix_edits(rules: Seq<Box<dyn FormatterRule>>, pass: RuleCategory, text: Seq<char>, request: TransformationRequest, n: int) -> Seq<Edit>
    decreases n,
{
    if n <= 0 {
        seq![]
    } else {
        let t = pass_prefix(rules, pass, text, request, n - 1);
        let e = pass_prefix_edits(rules, pass, text, request, n - 1);
        let r = rules[n - 1];
        if r.spec_metadata().category == pass && r.spec_applies(request) && r.rewrite(t, request) != t {
            e.push((t, r.rewrite(t, request), r.spec_metadata().name))
        } else {
            e
        }
    }
}

/// The text after one pass.
pub open spec fn pass_text(rules: Seq<Box<dyn FormatterRule>>, pass: RuleCategory, text: Seq<char>, request: TransformationRequest) -> Seq<char> {
    pass_prefix(rules, pass, text, request, rules.len() as int)
}

/// The changes made in one pass.
pub open spec fn pass_edits(rules: Seq<Box<dyn FormatterRule>>, pass: RuleCategory, text: Seq<char>, request: TransformationRequest) -> Seq<Edit> {
    pass_prefix_edits(rules, pass, text, request, rules.len() as int)
}

/// The text after the first `m` passes, in order.
pub open spec fn passes_prefix(rules: Seq<Box<dyn FormatterRule>>, passes: Seq<RuleCategory>, text: Seq<char>, request: TransformationRequest, m: int) -> Seq<char>
    decreases m,
{
    if m <= 0 {
        text
    } else {
        pass_text(rules, passes[m - 1], passes_prefix(rules, passes, text, request, m - 1), request)
    }
}

/// The changes made over the first `m` passes, in order.
pub open spec fn passes_prefix_edits(rules: Seq<Box<dyn FormatterRule>>, passes: Seq<RuleCategory>, text: Seq<char>, request: TransformationRequest, m: int) -> Seq<Edit>
    decreases m,
{
    if m <= 0 {
        seq![]
    } else {
        passes_prefix_edits(rules, passes, text, request, m - 1) + pass_edits(
            rules,
            passes[m - 1],
            passes_prefix(rules, passes, text, request, m - 1),
            request,
        )
    }
}

/// The text after every pass.
pub open spec fn registry_text(rules: Seq<Box<dyn FormatterRule>>, passes: Seq<RuleCategory>, text: Seq<char>, request: TransformationRequest) -> Seq<char> {
    passes_prefix(rules, passes, text, request, passes.len() as int)
}

/// The changes made over every pass, in order.
pub open spec fn registry_edits(rules: Seq<Box<dyn FormatterRule>>, passes: Seq<RuleCategory>, text: Seq<char>, request: TransformationRequest) -> Seq<Edit> {
    passes_prefix_edits(rules, passes, text, request, passes.len() as int)
}

/// Whether change `c` records edit `e` under id `id`: the whole old text
/// replaced by the new one, proposed by the rule, with certainty.
pub open spec fn records_edit(c: Change, e: Edit, id: int) -> bool {
    &&& c.id == id
    &&& (c.kind matches ChangeKind::Replace { replacement } && replacement@ == e.1)
    &&& c.range.start == 0
    &&& c.range.end == utf8_len(e.0)
    &&& (c.source matches ChangeSource::Rule(name) && name@ == e.2@)
    &&& c.confidence == Confidence::Certain
}

/// Whether `after` is `before` with one change appended for each edit, ids counting on.
pub open spec fn records_edits(before: Seq<Change>, after: Seq<Change>, edits: Seq<Edit>) -> bool {
    &&& after.len() == before.len() + edits.len()
    &&& after.take(before.len() as int) == before
    &&& forall|k: int| 0 <= k < edits.len() ==> records_edit(#[trigger] after[before.len() + k], edits[k], before.len() + k)
}

proof fn lemma_records_push(before: Seq<Change>, after: Seq<Change>, edits: Seq<Edit>, c: Change, e: Edit)
    requires
        records_edits(before, after, edits),
        records_edit(c, e, (before.len() + edits.len()) as int),
    ensures
        records_edits(before, after.push(c), edits.push(e)),
{
    let n = after.push(c);
    assert(n.take(before.len() as int) =~= before);
    assert forall|k: int| 0 <= k < edits.len() + 1 implies records_edit(#[trigger] n[before.len() + k], edits.push(e)[k], before.len() + k) by {
        if k < edits.len() {
            assert(n[before.len() + k] == after[before.len() + k]);
        }
    }
}

/// A rule set being assembled.
pub struct PipelineBuilder {
    rules: Vec<Box<dyn FormatterRule>>,
    passes: Vec<RuleCategory>,
}

/// The position at which a rule of priority `p` goes: after every rule whose
/// priority is at least `p`, scanning back from the end.
pub open spec fn priority_slot(rules: Seq<Box<dyn FormatterRule>>, p: u16) -> int
    decreases rules.len(),
{
    if rules.len() == 0 {
        0
    } else if rules.last().spec_metadata().priority >= p {
        rules.len() as int
    } else {
        priority_slot(rules.drop_last(), p)
    }
}

/// Whether the rules are in order of descending priority.
pub open spec fn by_descending_priority(rules: Seq<Box<dyn FormatterRule>>) -> bool {
    forall|i: int, j: int| 0 <= i < j < rules.len() ==> rules[i].spec_metadata().priority >= rules[j].spec_metadata().priority
}

impl PipelineBuilder {
    /// The rules added so far, in the order `add_rule` placed them.
    pub closed spec fn spec_rules(&self) -> Seq<Box<dyn FormatterRule>> {
        self.rules@
    }

    /// The passes added so far, in order.
    pub closed spec fn spec_passes(&self) -> Seq<RuleCategory> {
        self.passes@
    }

    pub fn new() -> (b: Self)
        ensures
            b.spec_rules().len() == 0,
            b.spec_passes().len() == 0,
    {
        Self { rules: Vec::new(), passes: Vec::new() }
    }

    /// Adds a rule after every rule of at least its priority, so that the
    /// rules stay sorted by descending priority, ties in the order added.
    pub fn add_rule(self, rule: Box<dyn FormatterRule>) -> (b: Self)
        ensures
            exists|pos: int| 0 <= pos <= self.spec_rules().len() && b.spec_rules() == #[trigger] self.spec_rules().insert(pos, rule),
            rules_obey(self.spec_rules()) && rule.obeys_rule_spec() ==> b.spec_rules() == self.spec_rules().insert(
                priority_slot(self.spec_rules(), rule.spec_metadata().priority),
                rule,
            ),
            b.spec_passes() == self.spec_passes(),
    {
        let ghost sr = self.spec_rules();
        let mut rules = self.rules;
        let p = rule.metadata().priority;
        let mut i: usize = rules.len();
        let ghost rv = rules@;
        let ghost ok = rules_obey(rv) && rule.obeys_rule_spec();
        proof {
            assert(rv.take(rv.len() as int) =~= rv);
        }
        while i > 0 && rules[i - 1].metadata().priority < p
            invariant
                rv == rules@,
                ok == (rules_obey(rv) && rule.obeys_rule_spec()),
                ok ==> p == rule.spec_metadata().priority,
                i <= rules@.len(),
                ok ==> priority_slot(rv, p) == priority_slot(rv.take(i as int), p),
            decreases i,
        {
            proof {
                assert(rv.take(i as int).drop_last() =~= rv.take(i - 1));
                assert(rv.take(i as int).last() == rv[i - 1]);
                if ok {
                    assert(rv[i - 1].obeys_rule_spec());
                }
            }
            i = i - 1;
        }
        proof {
            if i > 0 {
                assert(rv.take(i as int).last() == rv[i - 1]);
                if ok {
                    assert(rv[i - 1].obeys_rule_spec());
                }
            }
            lemma_slot_bounds(rv.take(i as int), p);
        }
        rules.insert(i, rule);
        proof {
            assert(rv == sr);
            assert(rules@ == sr.insert(i as int, rule));
        }
        Self { rules, passes: self.passes }
    }

    /// Adds a pass after the passes already added.
    pub fn add_pass(self, category: RuleCategory) -> (b: Self)
        ensures
            b.spec_rules() == self.spec_rules(),
            b.spec_passes() == self.spec_passes().push(category),
    {
        let mut passes = self.passes;
        passes.push(category);
        Self { rules: self.rules, passes }
    }

    /// The registry of the rules and passes added, its rules put in the order
    /// the planner gives for the passes (dependencies first, then priority),
    /// so that each pass runs its rules in that order. Rules that cannot be
    /// planned are kept in the order they were added.
    pub fn build(self) -> (r: RuleRegistry)
        ensures
            r.spec_passes() == self.spec_passes(),
            rules_obey(self.spec_rules()) ==> match spec_plan(metas_of(self.spec_rules()), self.spec_passes()) {
                Ok(o) => r.spec_rules().len() == o.len() && forall|t: int|
                    0 <= t < o.len() ==> #[trigger] r.spec_rules()[t] == self.spec_rules()[o[t] as int],
                Err(_) => r.spec_rules() == self.spec_rules(),
            },
            exists|m: Seq<RuleMetadata>| #[trigger] reported_metadata(self.spec_rules(), m) && match spec_plan(m, self.spec_passes()) {
                Ok(o) => r.spec_rules().len() == o.len() && forall|t: int|
                    0 <= t < o.len() ==> #[trigger] r.spec_rules()[t] == self.spec_rules()[o[t] as int],
                Err(_) => r.spec_rules() == self.spec_rules(),
            },
    {
        let metas = collect_metadata(&self.rules);
        proof {
            assert(reported_metadata(self.rules@, metas@));
        }
        match plan_order(&metas, self.passes.as_slice()) {
            Ok(order) => {
                proof {
                    lemma_plan_complete(metas@, self.passes@);
                    lemma_plan_in_range(metas@, self.passes@);
                }
                let rules = arrange(self.rules, &order);
                RuleRegistry { rules, passes: self.passes }
            },
            Err(_) => RuleRegistry { rules: self.rules, passes: self.passes },
        }
    }
}

/// The priority slot is a position of the list.
proof fn lemma_slot_bounds(rules: Seq<Box<dyn FormatterRule>>, p: u16)
    ensures
        0 <= priority_slot(rules, p) <= rules.len(),
    decreases rules.len(),
{
    if rules.len() > 0 {
        lemma_slot_bounds(rules.drop_last(), p);
    }
}

/// In rules sorted by descending priority, the slot where `add_rule` puts a
/// rule of priority `p` lies after every rule of at least that priority and
/// before every rule of a lower one.
pub proof fn lemma_priority_slot(rules: Seq<Box<dyn FormatterRule>>, p: u16)
    requires
        by_descending_priority(rules),
    ensures
        0 <= priority_slot(rules, p) <= rules.len(),
        forall|i: int| 0 <= i < priority_slot(rules, p) ==> rules[i].spec_metadata().priority >= p,
        forall|i: int| priority_slot(rules, p) <= i < rules.len() ==> rules[i].spec_metadata().priority < p,
    decreases rules.len(),
{
    if rules.len() > 0 {
        let t = rules.drop_last();
        assert forall|i: int, j: int| 0 <= i < j < t.len() implies t[i].spec_metadata().priority >= t[j].spec_metadata().priority by {
            assert(t[i] == rules[i] && t[j] == rules[j]);
        }
        lemma_priority_slot(t, p);
        if rules.last().spec_metadata().priority < p {
            assert forall|i: int| 0 <= i < priority_slot(t, p) implies rules[i].spec_metadata().priority >= p by {
                assert(t[i] == rules[i]);
            }
            assert forall|i: int| priority_slot(t, p) <= i < rules.len() implies rules[i].spec_metadata().priority < p by {
                if i < t.len() {
                    assert(t[i] == rules[i]);
                }
            }
        }
    }
}

/// The rules and passes a pipeline runs.
pub struct RuleRegistry {
    rules: Vec<Box<dyn FormatterRule>>,
    passes: Vec<RuleCategory>,
}

/// The names of the planned rules, in order.
pub open spec fn planned_names(metas: Seq<RuleMetadata>, order: Seq<usize>) -> Seq<&'static str> {
    order.map_values(|i: usize| metas[i as int].name)
}

impl RuleRegistry {
    /// The names of the rules in the order the planner runs them over the
    /// registry's passes (dependencies first, then priority); empty when the
    /// rules cannot be planned.
    pub fn ordered_rule_names(&self) -> (r: Vec<&'static str>)
        ensures
            rules_obey(self.spec_rules()) ==> r@ == (match spec_plan(metas_of(self.spec_rules()), self.spec_passes()) {
                Ok(o) => planned_names(metas_of(self.spec_rules()), o),
                Err(_) => Seq::empty(),
            }),
            exists|m: Seq<RuleMetadata>| #[trigger] reported_metadata(self.spec_rules(), m) && r@ == (match spec_plan(m, self.spec_passes()) {
                Ok(o) => planned_names(m, o),
                Err(_) => Seq::empty(),
            }),
    {
        let metas = collect_metadata(&self.rules);
        proof {
            assert(reported_metadata(self.rules@, metas@));
        }
        match plan_order(&metas, self.passes.as_slice()) {
            Ok(order) => {
                let mut names: Vec<&'static str> = Vec::new();
                let mut k: usize = 0;
                while k < order.len()
                    invariant
                        k <= order@.len(),
                        rules_obey(self.rules@) ==> metas@ == metas_of(self.rules@),
                        spec_plan(metas@, self.passes@) == Ok::<Seq<usize>, crate::formatting::planner::Failure>(order@),
                        names@ == planned_names(metas@, order@).take(k as int),
                    decreases order@.len() - k,
                {
                    proof {
                        lemma_plan_in_range(metas@, self.passes@);
                        assert(order@.contains(order@[k as int]));
                    }
                    names.push(metas[order[k]].name);
                    proof {
                        assert(planned_names(metas@, order@).take(k + 1) =~= planned_names(metas@, order@).take(k as int).push(metas@[order@[k as int] as int].name));
                    }
                    k = k + 1;
                }
                proof {
                    assert(planned_names(metas@, order@).take(order@.len() as int) =~= planned_names(metas@, order@));
                }
                names
            },
            Err(_) => Vec::new(),
        }
    }

    /// The rules, in the order they run within a pass.
    pub closed spec fn spec_rules(&self) -> Seq<Box<dyn FormatterRule>> {
        self.rules@
    }

    /// The passes, in order.
    pub closed spec fn spec_passes(&self) -> Seq<RuleCategory> {
        self.passes@
    }

    /// Runs each pass in order; in a pass, each rule of its category that
    /// applies to the request, in the registry's order (for a registry that
    /// `build` made, the planned order: dependencies first, then priority). Each run that changes the text is
    /// recorded as a change that replaces the whole text.
    pub fn apply_all(&self, state: &mut TransformationState, request: &TransformationRequest)
        ensures
            rules_obey(self.spec_rules()) ==> {
                &&& final(state).current_text@ == registry_text(self.spec_rules(), self.spec_passes(), old(state).current_text@, *request)
                &&& records_edits(
                    old(state).changes.changes@,
                    final(state).changes.changes@,
                    registry_edits(self.spec_rules(), self.spec_passes(), old(state).current_text@, *request),
                )
                &&& final(state).previous_window == old(state).previous_window
                &&& final(state).current_window == old(state).current_window
                &&& final(state).window_start == old(state).window_start
                &&& final(state).window_end == old(state).window_end
            },
    {
        let ghost ok = rules_obey(self.rules@);
        let ghost rules = self.rules@;
        let ghost passes = self.passes@;
        let ghost text0 = state.current_text@;
        let ghost changes0 = state.changes.changes@;
        let mut p: usize = 0;
        proof {
            assert(changes0.take(changes0.len() as int) =~= changes0);
        }
        while p < self.passes.len()
            invariant
                rules == self.rules@,
                ok == rules_obey(rules),
                passes == self.passes@,
                p <= passes.len(),
                ok ==> state.current_text@ == passes_prefix(rules, passes, text0, *request, p as int),
                ok ==> records_edits(changes0, state.changes.changes@, passes_prefix_edits(rules, passes, text0, *request, p as int)),
                ok ==> state.previous_window == old(state).previous_window,
                ok ==> state.current_window == old(state).current_window,
                ok ==> state.window_start == old(state).window_start,
                ok ==> state.window_end == old(state).window_end,
            decreases passes.len() - p,
        {
            let pass = self.passes[p];
            let ghost tp = state.current_text@;
            let ghost ep = passes_prefix_edits(rules, passes, text0, *request, p as int);
            let mut i: usize = 0;
            proof {
                assert(ep + pass_prefix_edits(rules, pass, tp, *request, 0) =~= ep);
            }
            while i < self.rules.len()
                invariant
                    rules == self.rules@,
                    ok == rules_obey(rules),
                    passes == self.passes@,
                    p < passes.len(),
                    pass == passes[p as int],
                    i <= rules.len(),
                    ok ==> tp == passes_prefix(rules, passes, text0, *request, p as int),
                    ep == passes_prefix_edits(rules, passes, text0, *request, p as int),
                    ok ==> state.current_text@ == pass_prefix(rules, pass, tp, *request, i as int),
                    ok ==> records_edits(changes0, state.changes.changes@, ep + pass_prefix_edits(rules, pass, tp, *request, i as int)),
                    ok ==> state.previous_window == old(state).previous_window,
                    ok ==> state.current_window == old(state).current_window,
                    ok ==> state.window_start == old(state).window_start,
                    ok ==> state.window_end == old(state).window_end,
                decreases rules.len() - i,
            {
                let rule = &self.rules[i];
                proof {
                    assert(*rule == rules[i as int]);
                }
                proof {
                    if ok {
                        assert(rules[i as int].obeys_rule_spec());
                    }
                }
                let meta = rule.metadata();
                assert(ok ==> meta == rules[i as int].spec_metadata());
                let applies = rule.applies(request);
                assert(ok ==> applies == rules[i as int].spec_applies(*request));
                if meta.category == pass && applies {
                    let before = state.current_text.clone();
                    rule.apply(state, request);
                    assert(ok ==> state.current_text@ == rules[i as int].rewrite(before@, *request));
                    if !(before == state.current_text) {
                        let id = state.changes.changes.len();
                        let end = byte_len(before.as_str());
                        let change = Change {
                            id,
                            kind: ChangeKind::Replace { replacement: state.current_text.clone() },
                            range: TextRange { start: 0, end },
                            source: ChangeSource::Rule(meta.name.to_owned()),
                            confidence: Confidence::Certain,
                        };
                        let ghost cs = state.changes.changes@;
                        proof {
                            if ok {
                            lemma_records_push(
                                changes0,
                                cs,
                                ep + pass_prefix_edits(rules, pass, tp, *request, i as int),
                                change,
                                (before@, state.current_text@, meta.name),
                            );
                            assert((ep + pass_prefix_edits(rules, pass, tp, *request, i as int)).push((before@, state.current_text@, meta.name))
                                =~= ep + pass_prefix_edits(rules, pass, tp, *request, i + 1));
                            }
                        }
                        state.changes.add(change);
                    } else {
                        proof {
                            if ok {
                                assert(ep + pass_prefix_edits(rules, pass, tp, *request, i as int) =~= ep + pass_prefix_edits(rules, pass, tp, *request, i + 1));
                            }
                        }
                    }
                }
                i = i + 1;
            }
            proof {
                if ok {
                    assert(ep + pass_edits(rules, pass, tp, *request) == passes_prefix_edits(rules, passes, text0, *request, p + 1));
                }
            }
            p = p + 1;
        }
    }
}

/// The built-in rules in the order a builder sorts them (descending
/// priority): what each declares, when it runs and what it makes of a text.
pub open spec fn builtin_rules(rules: Seq<Box<dyn FormatterRule>>) -> bool {
    &&& rules.len() == 10
    &&& rules_obey(rules)
    &&& rules[0].spec_metadata() == PunctuationRule.spec_metadata()
    &&& rules[1].spec_metadata() == DeveloperRule.spec_metadata()
    &&& rules[2].spec_metadata() == MarkdownRule.spec_metadata()
    &&& rules[3].spec_metadata() == NumbersRule.spec_metadata()
    &&& rules[4].spec_metadata() == VocabularyRule.spec_metadata()
    &&& rules[5].spec_metadata() == EmailUrlRule.spec_metadata()
    &&& rules[6].spec_metadata() == ListsRule.spec_metadata()
    &&& rules[7].spec_metadata() == SpacingRule.spec_metadata()
    &&& rules[8].spec_metadata() == CleanupRule.spec_metadata()
    &&& rules[9].spec_metadata() == CapitalizationRule.spec_metadata()
    &&& forall|q: TransformationRequest| #[trigger] rules[0].spec_applies(q) == PunctuationRule.spec_applies(q)
    &&& forall|q: TransformationRequest| #[trigger] rules[1].spec_applies(q) == DeveloperRule.spec_applies(q)
    &&& forall|q: TransformationRequest| #[trigger] rules[2].spec_applies(q) == MarkdownRule.spec_applies(q)
    &&& forall|q: TransformationRequest| #[trigger] rules[3].spec_applies(q) == NumbersRule.spec_applies(q)
    &&& forall|q: TransformationRequest| #[trigger] rules[4].spec_applies(q) == VocabularyRule.spec_applies(q)
    &&& forall|q: TransformationRequest| #[trigger] rules[5].spec_applies(q) == EmailUrlRule.spec_applies(q)
    &&& forall|q: TransformationRequest| #[trigger] rules[6].spec_applies(q) == ListsRule.spec_applies(q)
    &&& forall|q: TransformationRequest| #[trigger] rules[7].spec_applies(q) == SpacingRule.spec_applies(q)
    &&& forall|q: TransformationRequest| #[trigger] rules[8].spec_applies(q) == CleanupRule.spec_applies(q)
    &&& forall|q: TransformationRequest| #[trigger] rules[9].spec_applies(q) == CapitalizationRule.spec_applies(q)
    &&& forall|t: Seq<char>, q: TransformationRequest| #[trigger] rules[0].rewrite(t, q) == PunctuationRule.rewrite(t, q)
    &&& forall|t: Seq<char>, q: TransformationRequest| #[trigger] rules[1].rewrite(t, q) == DeveloperRule.rewrite(t, q)
    &&& forall|t: Seq<char>, q: TransformationRequest| #[trigger] rules[2].rewrite(t, q) == MarkdownRule.rewrite(t, q)
    &&& forall|t: Seq<char>, q: TransformationRequest| #[trigger] rules[3].rewrite(t, q) == NumbersRule.rewrite(t, q)
    &&& forall|t: Seq<char>, q: TransformationRequest| #[trigger] rules[4].rewrite(t, q) == VocabularyRule.rewrite(t, q)
    &&& forall|t: Seq<char>, q: TransformationRequest| #[trigger] rules[5].rewrite(t, q) == EmailUrlRule.rewrite(t, q)
    &&& forall|t: Seq<char>, q: TransformationRequest| #[trigger] rules[6].rewrite(t, q) == ListsRule.rewrite(t, q)
    &&& forall|t: Seq<char>, q: TransformationRequest| #[trigger] rules[7].rewrite(t, q) == SpacingRule.rewrite(t, q)
    &&& forall|t: Seq<char>, q: TransformationRequest| #[trigger] rules[8].rewrite(t, q) == CleanupRule.rewrite(t, q)
    &&& forall|t: Seq<char>, q: TransformationRequest| #[trigger] rules[9].rewrite(t, q) == CapitalizationRule.rewrite(t, q)
}

/// The passes of the built-in registry.
pub open spec fn builtin_passes() -> Seq<RuleCategory> {
    seq![
        RuleCategory::Lexical,
        RuleCategory::Normalization,
        RuleCategory::Developer,
        RuleCategory::Formatting,
        RuleCategory::Cleanup,
    ]
}

impl Default for RuleRegistry {
    /// The built-in rules, sorted as a builder sorts them, run in the lexical,
    /// normalization, developer, formatting and cleanup passes.
    fn default() -> (r: Self)
        ensures
            builtin_rules(r.spec_rules()),
            r.spec_passes() == builtin_passes(),
    {
        let rules: Vec<Box<dyn FormatterRule>> = vec![
            Box::new(PunctuationRule),
            Box::new(DeveloperRule),
            Box::new(MarkdownRule),
            Box::new(NumbersRule),
            Box::new(VocabularyRule),
            Box::new(EmailUrlRule),
            Box::new(ListsRule),
            Box::new(SpacingRule),
            Box::new(CleanupRule),
            Box::new(CapitalizationRule),
        ];
        let passes = vec![
            RuleCategory::Lexical,
            RuleCategory::Normalization,
            RuleCategory::Developer,
            RuleCategory::Formatting,
            RuleCategory::Cleanup,
        ];
        RuleRegistry { rules, passes }
    }
}

} // verus!
