//! Ordering rules: per pass, by dependencies first and priority second.
use vstd::prelude::*;

use super::metadata::{RuleCategory, RuleId, RuleMetadata};
use super::traits::{rules_obey, FormatterRule};
use crate::text::same_text;

verus! {

/// Why a set of rules cannot be planned.
#[derive(Debug)]
pub enum PlannerError {
    MissingDependency { rule: String, depends_on: String },
    CrossCategoryDependency { rule: String, depends_on: String },
    DuplicateRuleId(String),
    CircularDependency(String),
    SelfDependency(String),
}

/// A planning failure as plain values: its kind (0 missing dependency,
/// 1 cross-category dependency, 2 duplicate id, 3 circular dependency, 4 self
/// dependency), the rule it names and the dependency it names (empty when none).
pub type Failure = (nat, Seq<char>, Seq<char>);

/// The plain values of a planner error.
pub open spec fn failure_of(e: PlannerError) -> Failure {
    match e {
        PlannerError::MissingDependency { rule, depends_on } => (0, rule@, depends_on@),
        PlannerError::CrossCategoryDependency { rule, depends_on } => (1, rule@, depends_on@),
        PlannerError::DuplicateRuleId(id) => (2, id@, seq![]),
        PlannerError::CircularDependency(id) => (3, id@, seq![]),
        PlannerError::SelfDependency(id) => (4, id@, seq![]),
    }
}

/// The message of a planner error.
pub open spec fn message_of(e: PlannerError) -> Seq<char> {
    match e {
        PlannerError::MissingDependency { rule, depends_on } =>
            "Rule '"@ + rule@ + "' depends on missing rule '"@ + depends_on@ + "'"@,
        PlannerError::CrossCategoryDependency { rule, depends_on } =>
            "Cross-category dependency: '"@ + rule@ + "' depends on '"@ + depends_on@ + "'"@,
        PlannerError::DuplicateRuleId(id) => "Duplicate rule ID: '"@ + id@ + "'"@,
        PlannerError::CircularDependency(id) => "Circular dependency detected involving: '"@ + id@ + "'"@,
        PlannerError::SelfDependency(id) => "Rule '"@ + id@ + "' depends on itself"@,
    }
}

impl PlannerError {
    /// The message of the error.
    pub fn message(&self) -> (m: String)
        ensures
            m@ == message_of(*self),
    {
        match self {
            PlannerError::MissingDependency { rule, depends_on } => {
                let mut m = String::from_str("Rule '");
                m.append(rule.as_str());
                m.append("' depends on missing rule '");
                m.append(depends_on.as_str());
                m.append("'");
                m
            },
            PlannerError::CrossCategoryDependency { rule, depends_on } => {
                let mut m = String::from_str("Cross-category dependency: '");
                m.append(rule.as_str());
                m.append("' depends on '");
                m.append(depends_on.as_str());
                m.append("'");
                m
            },
            PlannerError::DuplicateRuleId(id) => {
                let mut m = String::from_str("Duplicate rule ID: '");
                m.append(id.as_str());
                m.append("'");
                m
            },
            PlannerError::CircularDependency(id) => {
                let mut m = String::from_str("Circular dependency detected involving: '");
                m.append(id.as_str());
                m.append("'");
                m
            },
            PlannerError::SelfDependency(id) => {
                let mut m = String::from_str("Rule '");
                m.append(id.as_str());
                m.append("' depends on itself");
                m
            },
        }
    }
}

/// The id of rule `i`.
pub open spec fn rid(metas: Seq<RuleMetadata>, i: int) -> Seq<char> {
    metas[i].id.0@
}

/// The ids rule `i` depends on.
pub open spec fn deps(metas: Seq<RuleMetadata>, i: int) -> Seq<RuleId> {
    metas[i].depends_on@
}

/// The first rule among the first `n` whose id an earlier rule already has.
pub open spec fn first_duplicate(metas: Seq<RuleMetadata>, n: int) -> Option<int>
    decreases n,
{
    if n <= 0 {
        None
    } else {
        match first_duplicate(metas, n - 1) {
            Some(i) => Some(i),
            None => if exists|j: int| 0 <= j < n - 1 && #[trigger] rid(metas, j) == rid(metas, n - 1) {
                Some(n - 1)
            } else {
                None
            },
        }
    }
}

/// The first rule among the first `n` with id `id`.
pub open spec fn index_of(metas: Seq<RuleMetadata>, id: Seq<char>, n: int) -> Option<int>
    decreases n,
{
    if n <= 0 {
        None
    } else {
        match index_of(metas, id, n - 1) {
            Some(j) => Some(j),
            None => if rid(metas, n - 1) == id {
                Some(n - 1)
            } else {
                None
            },
        }
    }
}

/// What is wrong with rule `i` depending on `d`: itself, a rule of another
/// category, or no rule at all.
pub open spec fn dep_failure(metas: Seq<RuleMetadata>, i: int, d: Seq<char>) -> Option<Failure> {
    if d == rid(metas, i) {
        Some((4, rid(metas, i), seq![]))
    } else {
        match index_of(metas, d, metas.len() as int) {
            Some(j) => if metas[j].category != metas[i].category {
                Some((1, rid(metas, i), d))
            } else {
                None
            },
            None => Some((0, rid(metas, i), d)),
        }
    }
}

/// The first failure among the first `k` dependencies of rule `i`.
pub open spec fn deps_failure(metas: Seq<RuleMetadata>, i: int, k: int) -> Option<Failure>
    decreases k,
{
    if k <= 0 {
        None
    } else {
        match deps_failure(metas, i, k - 1) {
            Some(f) => Some(f),
            None => dep_failure(metas, i, deps(metas, i)[k - 1].0@),
        }
    }
}

/// The first dependency failure among the first `n` rules.
pub open spec fn rules_failure(metas: Seq<RuleMetadata>, n: int) -> Option<Failure>
    decreases n,
{
    if n <= 0 {
        None
    } else {
        match rules_failure(metas, n - 1) {
            Some(f) => Some(f),
            None => deps_failure(metas, n - 1, deps(metas, n - 1).len() as int),
        }
    }
}

/// The rules among the first `n` of category `c`, in order.
pub open spec fn members(metas: Seq<RuleMetadata>, c: RuleCategory, n: int) -> Seq<usize>
    decreases n,
{
    if n <= 0 {
        seq![]
    } else if metas[n - 1].category == c {
        members(metas, c, n - 1).push((n - 1) as usize)
    } else {
        members(metas, c, n - 1)
    }
}

/// Where a rule of priority `p` goes in a list sorted by descending priority:
/// after every rule of at least that priority.
pub open spec fn priority_position(metas: Seq<RuleMetadata>, sorted: Seq<usize>, p: u16) -> int
    decreases sorted.len(),
{
    if sorted.len() == 0 {
        0
    } else if metas[sorted.last() as int].priority >= p {
        sorted.len() as int
    } else {
        priority_position(metas, sorted.drop_last(), p)
    }
}

/// The rules sorted by descending priority, ties keeping their order.
pub open spec fn by_priority(metas: Seq<RuleMetadata>, s: Seq<usize>) -> Seq<usize>
    decreases s.len(),
{
    if s.len() == 0 {
        s
    } else {
        let sorted = by_priority(metas, s.drop_last());
        sorted.insert(priority_position(metas, sorted, metas[s.last() as int].priority), s.last())
    }
}

/// The rules of category `c` by descending priority.
pub open spec fn category_order(metas: Seq<RuleMetadata>, c: RuleCategory) -> Seq<usize> {
    by_priority(metas, members(metas, c, metas.len() as int))
}

/// The position in `placed` of the first rule with id `d`, or -1.
pub open spec fn position_of(metas: Seq<RuleMetadata>, placed: Seq<usize>, d: Seq<char>) -> int
    decreases placed.len(),
{
    if placed.len() == 0 {
        -1
    } else {
        let p = position_of(metas, placed.drop_last(), d);
        if p >= 0 {
            p
        } else if rid(metas, placed.last() as int) == d {
            placed.len() - 1
        } else {
            -1
        }
    }
}

/// Whether every dependency of rule `i` is in `placed`.
pub open spec fn is_ready(metas: Seq<RuleMetadata>, placed: Seq<usize>, i: int) -> bool {
    forall|k: int| 0 <= k < deps(metas, i).len() ==> position_of(metas, placed, #[trigger] deps(metas, i)[k].0@) >= 0
}

/// How many rules had been placed when the last of the first `k`
/// dependencies of rule `i` was placed (0 when there are none).
pub open spec fn ready_time(metas: Seq<RuleMetadata>, placed: Seq<usize>, i: int, k: int) -> int
    decreases k,
{
    if k <= 0 {
        0
    } else {
        let t = ready_time(metas, placed, i, k - 1);
        let p = position_of(metas, placed, deps(metas, i)[k - 1].0@) + 1;
        if p > t {
            p
        } else {
            t
        }
    }
}

/// When rule `i` became ready.
pub open spec fn became_ready(metas: Seq<RuleMetadata>, placed: Seq<usize>, i: int) -> int {
    ready_time(metas, placed, i, deps(metas, i).len() as int)
}

/// Whether rule `i` can be placed next: not placed yet and ready.
pub open spec fn is_candidate(metas: Seq<RuleMetadata>, placed: Seq<usize>, i: usize) -> bool {
    !placed.contains(i) && is_ready(metas, placed, i as int)
}

/// Whether rule `a` goes before rule `b` among candidates: higher priority,
/// or equal priority and ready earlier.
pub open spec fn goes_first(metas: Seq<RuleMetadata>, placed: Seq<usize>, a: usize, b: usize) -> bool {
    metas[a as int].priority > metas[b as int].priority || (metas[a as int].priority == metas[b as int].priority
        && became_ready(metas, placed, a as int) < became_ready(metas, placed, b as int))
}

/// The position in `order` (among its first `n`) of the next rule to place:
/// the candidate that goes first, the earliest in `order` on a tie.
pub open spec fn pick(metas: Seq<RuleMetadata>, order: Seq<usize>, placed: Seq<usize>, n: int) -> Option<int>
    decreases n,
{
    if n <= 0 {
        None
    } else {
        let b = pick(metas, order, placed, n - 1);
        if !is_candidate(metas, placed, order[n - 1]) {
            b
        } else {
            match b {
                None => Some(n - 1),
                Some(pb) => if goes_first(metas, placed, order[n - 1], order[pb]) {
                    Some(n - 1)
                } else {
                    b
                },
            }
        }
    }
}

/// The first rule of `order` not in `placed`.
pub open spec fn first_unplaced(order: Seq<usize>, placed: Seq<usize>, n: int) -> Option<usize>
    decreases n,
{
    if n <= 0 {
        None
    } else {
        match first_unplaced(order, placed, n - 1) {
            Some(i) => Some(i),
            None => if !placed.contains(order[n - 1]) {
                Some(order[n - 1])
            } else {
                None
            },
        }
    }
}

/// Places up to `fuel` more rules of `order` after `placed`, picking each
/// time; when no rule can be placed, the first unplaced rule is blamed.
pub open spec fn schedule(metas: Seq<RuleMetadata>, order: Seq<usize>, placed: Seq<usize>, fuel: nat) -> Result<Seq<usize>, usize>
    decreases fuel,
{
    if fuel == 0 {
        Ok(placed)
    } else {
        match pick(metas, order, placed, order.len() as int) {
            Some(p) => schedule(metas, order, placed.push(order[p]), (fuel - 1) as nat),
            None => match first_unplaced(order, placed, order.len() as int) {
                Some(i) => Err(i),
                None => Ok(placed),
            },
        }
    }
}

/// The plan of the first `m` passes: each category the first time it comes,
/// its rules scheduled.
pub open spec fn plan_passes(metas: Seq<RuleMetadata>, passes: Seq<RuleCategory>, m: int) -> Result<Seq<usize>, Failure>
    decreases m,
{
    if m <= 0 {
        Ok(seq![])
    } else {
        match plan_passes(metas, passes, m - 1) {
            Err(f) => Err(f),
            Ok(acc) => {
                let c = passes[m - 1];
                if passes.take(m - 1).contains(c) {
                    Ok(acc)
                } else {
                    let order = category_order(metas, c);
                    match schedule(metas, order, seq![], order.len()) {
                        Ok(o) => Ok(acc + o),
                        Err(i) => Err((3, rid(metas, i as int), seq![])),
                    }
                }
            },
        }
    }
}

/// The plan of rules with these metadata for these passes: the rule indices
/// in the order they run, or why they cannot be planned. Duplicate ids are
/// checked first, then each rule's dependencies in order, then each pass.
pub open spec fn spec_plan(metas: Seq<RuleMetadata>, passes: Seq<RuleCategory>) -> Result<Seq<usize>, Failure> {
    match first_duplicate(metas, metas.len() as int) {
        Some(i) => Err((2, rid(metas, i), seq![])),
        None => match rules_failure(metas, metas.len() as int) {
            Some(f) => Err(f),
            None => plan_passes(metas, passes, passes.len() as int),
        },
    }
}

/// Once a prefix holds a rule with id `d`, so does every longer prefix, at the same place.
proof fn lemma_position_prefix(metas: Seq<RuleMetadata>, placed: Seq<usize>, d: Seq<char>, n: int)
    requires
        0 <= n <= placed.len(),
        position_of(metas, placed.take(n), d) >= 0,
    ensures
        position_of(metas, placed, d) == position_of(metas, placed.take(n), d),
    decreases placed.len() - n,
{
    if n == placed.len() {
        assert(placed.take(n) =~= placed);
    } else {
        assert(placed.take(n + 1).drop_last() =~= placed.take(n));
        lemma_position_prefix(metas, placed, d, n + 1);
    }
}

/// The position of the first rule of `placed` with id `d`.
fn position_exec(metas: &Vec<RuleMetadata>, placed: &Vec<usize>, d: &str) -> (r: Option<usize>)
    requires
        forall|t: int| 0 <= t < placed@.len() ==> (placed@[t] as int) < metas@.len(),
    ensures
        r matches Some(t) ==> position_of(metas@, placed@, d@) == t && t < placed@.len(),
        r is None ==> position_of(metas@, placed@, d@) == -1,
{
    let mut t: usize = 0;
    proof {
        assert(placed@.take(0) =~= Seq::<usize>::empty());
    }
    while t < placed.len()
        invariant
            t <= placed@.len(),
            forall|u: int| 0 <= u < placed@.len() ==> (placed@[u] as int) < metas@.len(),
            position_of(metas@, placed@.take(t as int), d@) == -1,
        decreases placed@.len() - t,
    {
        proof {
            assert(placed@.take(t + 1).drop_last() =~= placed@.take(t as int));
            assert(placed@.take(t + 1).last() == placed@[t as int]);
        }
        if same_text(metas[placed[t]].id.0, d) {
            proof {
                lemma_position_prefix(metas@, placed@, d@, t + 1);
            }
            return Some(t);
        }
        t = t + 1;
    }
    proof {
        assert(placed@.take(placed@.len() as int) =~= placed@);
    }
    None
}

/// When rule `i` became ready, or `None` when it is not ready.
fn ready_exec(metas: &Vec<RuleMetadata>, placed: &Vec<usize>, i: usize) -> (r: Option<usize>)
    requires
        (i as int) < metas@.len(),
        forall|t: int| 0 <= t < placed@.len() ==> (placed@[t] as int) < metas@.len(),
    ensures
        r is None <==> !is_ready(metas@, placed@, i as int),
        r matches Some(t) ==> t == became_ready(metas@, placed@, i as int),
{
    let ds = metas[i].depends_on;
    let mut time: usize = 0;
    let mut k: usize = 0;
    while k < ds.len()
        invariant
            ds@ == deps(metas@, i as int),
            (i as int) < metas@.len(),
            forall|t: int| 0 <= t < placed@.len() ==> (placed@[t] as int) < metas@.len(),
            k <= ds@.len(),
            time == ready_time(metas@, placed@, i as int, k as int),
            time <= placed@.len(),
            forall|j: int| 0 <= j < k ==> position_of(metas@, placed@, #[trigger] ds@[j].0@) >= 0,
        decreases ds@.len() - k,
    {
        match position_exec(metas, placed, ds[k].0) {
            Some(t) => {
                let len = placed.len();
                assert(t < len);
                if t >= time {
                    time = t + 1;
                }
            },
            None => {
                proof {
                    assert(deps(metas@, i as int)[k as int] == ds@[k as int]);
                }
                return None;
            },
        }
        k = k + 1;
    }
    Some(time)
}

/// Whether `placed` holds `i`.
fn holds(placed: &Vec<usize>, i: usize) -> (r: bool)
    ensures
        r == placed@.contains(i),
{
    let mut t: usize = 0;
    while t < placed.len()
        invariant
            t <= placed@.len(),
            forall|u: int| 0 <= u < t ==> placed@[u] != i,
        decreases placed@.len() - t,
    {
        if placed[t] == i {
            return true;
        }
        t = t + 1;
    }
    false
}

/// The next rule of `order` to place, as a position in `order`.
fn pick_exec(metas: &Vec<RuleMetadata>, order: &Vec<usize>, placed: &Vec<usize>) -> (r: Option<usize>)
    requires
        forall|t: int| 0 <= t < order@.len() ==> (order@[t] as int) < metas@.len(),
        forall|t: int| 0 <= t < placed@.len() ==> (placed@[t] as int) < metas@.len(),
    ensures
        r matches Some(p) ==> pick(metas@, order@, placed@, order@.len() as int) == Some(p as int) && p < order@.len(),
        r is None ==> pick(metas@, order@, placed@, order@.len() as int) is None,
{
    let mut best: Option<(usize, usize)> = None;
    let mut n: usize = 0;
    while n < order.len()
        invariant
            n <= order@.len(),
            forall|t: int| 0 <= t < order@.len() ==> (order@[t] as int) < metas@.len(),
            forall|t: int| 0 <= t < placed@.len() ==> (placed@[t] as int) < metas@.len(),
            best matches Some((pb, rt)) ==> pick(metas@, order@, placed@, n as int) == Some(pb as int) && pb < n
                && rt == became_ready(metas@, placed@, order@[pb as int] as int),
            best is None ==> pick(metas@, order@, placed@, n as int) is None,
        decreases order@.len() - n,
    {
        let x = order[n];
        if !holds(placed, x) {
            match ready_exec(metas, placed, x) {
                Some(rt) => {
                    match best {
                        None => {
                            best = Some((n, rt));
                        },
                        Some((pb, brt)) => {
                            let y = order[pb];
                            if metas[x].priority > metas[y].priority || (metas[x].priority == metas[y].priority && rt < brt) {
                                best = Some((n, rt));
                            }
                        },
                    }
                },
                None => {},
            }
        }
        n = n + 1;
    }
    match best {
        Some((pb, _)) => Some(pb),
        None => None,
    }
}

/// The first rule of `order` that `placed` lacks.
fn first_unplaced_exec(order: &Vec<usize>, placed: &Vec<usize>) -> (r: Option<usize>)
    ensures
        r == first_unplaced(order@, placed@, order@.len() as int),
{
    let mut n: usize = 0;
    while n < order.len()
        invariant
            n <= order@.len(),
            first_unplaced(order@, placed@, n as int) is None,
        decreases order@.len() - n,
    {
        if !holds(placed, order[n]) {
            proof {
                lemma_first_unplaced_extends(order@, placed@, n + 1);
            }
            return Some(order[n]);
        }
        n = n + 1;
    }
    None
}

/// Once found among the first `n`, the first unplaced rule stays the same.
proof fn lemma_first_unplaced_extends(order: Seq<usize>, placed: Seq<usize>, n: int)
    requires
        0 <= n <= order.len(),
        first_unplaced(order, placed, n) is Some,
    ensures
        first_unplaced(order, placed, order.len() as int) == first_unplaced(order, placed, n),
    decreases order.len() - n,
{
    if n < order.len() {
        lemma_first_unplaced_extends(order, placed, n + 1);
    }
}

/// Schedules the rules of `order`.
fn schedule_exec(metas: &Vec<RuleMetadata>, order: &Vec<usize>) -> (r: Result<Vec<usize>, usize>)
    requires
        forall|t: int| 0 <= t < order@.len() ==> (order@[t] as int) < metas@.len(),
    ensures
        match schedule(metas@, order@, seq![], order@.len()) {
            Ok(o) => r matches Ok(v) && v@ == o,
            Err(i) => r == Err::<Vec<usize>, usize>(i),
        },
{
    let mut placed: Vec<usize> = Vec::new();
    let mut left: usize = order.len();
    proof {
        assert(placed@ =~= Seq::<usize>::empty());
    }
    while left > 0
        invariant
            forall|t: int| 0 <= t < order@.len() ==> (order@[t] as int) < metas@.len(),
            forall|t: int| 0 <= t < placed@.len() ==> (placed@[t] as int) < metas@.len(),
            schedule(metas@, order@, seq![], order@.len()) == schedule(metas@, order@, placed@, left as nat),
        decreases left,
    {
        match pick_exec(metas, order, &placed) {
            Some(p) => {
                placed.push(order[p]);
                left = left - 1;
            },
            None => {
                return match first_unplaced_exec(order, &placed) {
                    Some(i) => Err(i),
                    None => Ok(placed),
                };
            },
        }
    }
    Ok(placed)
}

/// The rules of category `c` among the first `n`.
fn members_exec(metas: &Vec<RuleMetadata>, c: RuleCategory) -> (r: Vec<usize>)
    ensures
        r@ == members(metas@, c, metas@.len() as int),
        forall|t: int| 0 <= t < r@.len() ==> (r@[t] as int) < metas@.len(),
{
    let mut out: Vec<usize> = Vec::new();
    let mut n: usize = 0;
    while n < metas.len()
        invariant
            n <= metas@.len(),
            out@ == members(metas@, c, n as int),
            forall|t: int| 0 <= t < out@.len() ==> (out@[t] as int) < n,
        decreases metas@.len() - n,
    {
        if metas[n].category == c {
            out.push(n);
        }
        n = n + 1;
    }
    out
}

/// The rules of category `c` by descending priority, ties in order.
fn category_order_exec(metas: &Vec<RuleMetadata>, c: RuleCategory) -> (r: Vec<usize>)
    ensures
        r@ == category_order(metas@, c),
        forall|t: int| 0 <= t < r@.len() ==> (r@[t] as int) < metas@.len(),
{
    let mut rest = members_exec(metas, c);
    let ghost mv = rest@;
    let mut sorted: Vec<usize> = Vec::new();
    let ghost mut k: int = 0;
    proof {
        assert(mv.take(0) =~= Seq::<usize>::empty());
        assert(mv.skip(0) =~= mv);
    }
    while rest.len() > 0
        invariant
            forall|t: int| 0 <= t < mv.len() ==> (mv[t] as int) < metas@.len(),
            0 <= k <= mv.len(),
            rest@ == mv.skip(k),
            sorted@ == by_priority(metas@, mv.take(k)),
            forall|t: int| 0 <= t < sorted@.len() ==> (sorted@[t] as int) < metas@.len(),
        decreases rest@.len(),
    {
        let ghost rest0 = rest@;
        proof {
            assert(k < mv.len());
            assert(rest0[0] == mv[k]);
        }
        let e = rest.remove(0);
        proof {
            assert(rest@ =~= mv.skip(k + 1));
            assert(mv.take(k + 1).drop_last() =~= mv.take(k));
            assert(mv.take(k + 1).last() == mv[k]);
        }
        let p = metas[e].priority;
        let ghost sv = sorted@;
        let mut i: usize = sorted.len();
        proof {
            assert(sv.take(sv.len() as int) =~= sv);
        }
        while i > 0 && metas[sorted[i - 1]].priority < p
            invariant
                sv == sorted@,
                forall|t: int| 0 <= t < sorted@.len() ==> (sorted@[t] as int) < metas@.len(),
                i <= sorted@.len(),
                priority_position(metas@, sv, p) == priority_position(metas@, sv.take(i as int), p),
            decreases i,
        {
            proof {
                assert(sv.take(i as int).drop_last() =~= sv.take(i - 1));
                assert(sv.take(i as int).last() == sv[i - 1]);
            }
            i = i - 1;
        }
        proof {
            if i > 0 {
                assert(sv.take(i as int).last() == sv[i - 1]);
            }
        }
        sorted.insert(i, e);
        proof {
            assert forall|t: int| 0 <= t < sorted@.len() implies (sorted@[t] as int) < metas@.len() by {
                sv.insert_ensures(i as int, e);
                if t > i {
                    assert(sorted@[(t - 1) + 1] == sv[t - 1]);
                }
            }
            k = k + 1;
        }
    }
    proof {
        assert(mv.take(k) =~= mv);
    }
    sorted
}

/// The first rule whose id an earlier rule already has.
fn find_duplicate(metas: &Vec<RuleMetadata>) -> (r: Option<usize>)
    ensures
        r matches Some(i) ==> first_duplicate(metas@, metas@.len() as int) == Some(i as int) && i < metas@.len(),
        r is None ==> first_duplicate(metas@, metas@.len() as int) is None,
{
    let mut i: usize = 0;
    while i < metas.len()
        invariant
            i <= metas@.len(),
            first_duplicate(metas@, i as int) is None,
        decreases metas@.len() - i,
    {
        let mut j: usize = 0;
        while j < i
            invariant
                i < metas@.len(),
                j <= i,
                first_duplicate(metas@, i as int) is None,
                forall|u: int| 0 <= u < j ==> rid(metas@, u) != rid(metas@, i as int),
            decreases i - j,
        {
            if same_text(metas[j].id.0, metas[i].id.0) {
                proof {
                    assert(rid(metas@, j as int) == rid(metas@, i as int));
                    assert(first_duplicate(metas@, i + 1) == Some(i as int));
                    lemma_first_duplicate_extends(metas@, i + 1);
                }
                return Some(i);
            }
            j = j + 1;
        }
        i = i + 1;
    }
    None
}

/// Once found among the first `n`, the first duplicate stays the same.
proof fn lemma_first_duplicate_extends(metas: Seq<RuleMetadata>, n: int)
    requires
        0 <= n <= metas.len(),
        first_duplicate(metas, n) is Some,
    ensures
        first_duplicate(metas, metas.len() as int) == first_duplicate(metas, n),
    decreases metas.len() - n,
{
    if n < metas.len() {
        lemma_first_duplicate_extends(metas, n + 1);
    }
}

/// The first rule with id `id`.
fn index_of_exec(metas: &Vec<RuleMetadata>, id: &str) -> (r: Option<usize>)
    ensures
        r matches Some(j) ==> index_of(metas@, id@, metas@.len() as int) == Some(j as int) && j < metas@.len(),
        r is None ==> index_of(metas@, id@, metas@.len() as int) is None,
{
    let mut n: usize = 0;
    while n < metas.len()
        invariant
            n <= metas@.len(),
            index_of(metas@, id@, n as int) is None,
        decreases metas@.len() - n,
    {
        if same_text(metas[n].id.0, id) {
            proof {
                lemma_index_of_extends(metas@, id@, n + 1);
            }
            return Some(n);
        }
        n = n + 1;
    }
    None
}

/// Once found among the first `n`, the first rule with an id stays the same.
proof fn lemma_index_of_extends(metas: Seq<RuleMetadata>, id: Seq<char>, n: int)
    requires
        0 <= n <= metas.len(),
        index_of(metas, id, n) is Some,
    ensures
        index_of(metas, id, metas.len() as int) == index_of(metas, id, n),
    decreases metas.len() - n,
{
    if n < metas.len() {
        lemma_index_of_extends(metas, id, n + 1);
    }
}

/// What is wrong with rule `i` depending on `d`, as an error.
fn dep_failure_exec(metas: &Vec<RuleMetadata>, i: usize, d: &'static str) -> (r: Option<PlannerError>)
    requires
        (i as int) < metas@.len(),
    ensures
        match dep_failure(metas@, i as int, d@) {
            Some(f) => r matches Some(e) && failure_of(e) == f,
            None => r is None,
        },
{
    let id = metas[i].id.0;
    if same_text(d, id) {
        return Some(PlannerError::SelfDependency(id.to_owned()));
    }
    match index_of_exec(metas, d) {
        Some(j) => {
            if metas[j].category != metas[i].category {
                Some(PlannerError::CrossCategoryDependency { rule: id.to_owned(), depends_on: d.to_owned() })
            } else {
                None
            }
        },
        None => Some(PlannerError::MissingDependency { rule: id.to_owned(), depends_on: d.to_owned() }),
    }
}

/// The first dependency failure of the rules, in order.
fn validate(metas: &Vec<RuleMetadata>) -> (r: Option<PlannerError>)
    ensures
        match rules_failure(metas@, metas@.len() as int) {
            Some(f) => r matches Some(e) && failure_of(e) == f,
            None => r is None,
        },
{
    let mut i: usize = 0;
    while i < metas.len()
        invariant
            i <= metas@.len(),
            rules_failure(metas@, i as int) is None,
        decreases metas@.len() - i,
    {
        let ds = metas[i].depends_on;
        let mut k: usize = 0;
        while k < ds.len()
            invariant
                i < metas@.len(),
                ds@ == deps(metas@, i as int),
                k <= ds@.len(),
                rules_failure(metas@, i as int) is None,
                deps_failure(metas@, i as int, k as int) is None,
            decreases ds@.len() - k,
        {
            let f = dep_failure_exec(metas, i, ds[k].0);
            if f.is_some() {
                proof {
                    lemma_deps_failure_extends(metas@, i as int, k + 1);
                    lemma_rules_failure_extends(metas@, i + 1);
                }
                return f;
            }
            k = k + 1;
        }
        i = i + 1;
    }
    None
}

/// Once found among the first `k` dependencies, the first failure stays the same.
proof fn lemma_deps_failure_extends(metas: Seq<RuleMetadata>, i: int, k: int)
    requires
        0 <= k <= deps(metas, i).len(),
        deps_failure(metas, i, k) is Some,
    ensures
        deps_failure(metas, i, deps(metas, i).len() as int) == deps_failure(metas, i, k),
    decreases deps(metas, i).len() - k,
{
    if k < deps(metas, i).len() {
        lemma_deps_failure_extends(metas, i, k + 1);
    }
}

/// Once found among the first `n` rules, the first failure stays the same.
proof fn lemma_rules_failure_extends(metas: Seq<RuleMetadata>, n: int)
    requires
        0 <= n <= metas.len(),
        rules_failure(metas, n) is Some,
    ensures
        rules_failure(metas, metas.len() as int) == rules_failure(metas, n),
    decreases metas.len() - n,
{
    if n < metas.len() {
        lemma_rules_failure_extends(metas, n + 1);
    }
}

/// Whether one of the first `m` passes is `c`.
fn seen_before(passes: &[RuleCategory], m: usize, c: RuleCategory) -> (r: bool)
    requires
        m <= passes@.len(),
    ensures
        r == passes@.take(m as int).contains(c),
{
    let mut t: usize = 0;
    while t < m
        invariant
            m <= passes@.len(),
            t <= m,
            forall|u: int| 0 <= u < t ==> passes@[u] != c,
        decreases m - t,
    {
        if passes[t] == c {
            proof {
                assert(passes@.take(m as int)[t as int] == c);
            }
            return true;
        }
        t = t + 1;
    }
    proof {
        if passes@.take(m as int).contains(c) {
            let u = choose|u: int| 0 <= u < m && passes@.take(m as int)[u] == c;
            assert(passes@[u] == c);
        }
    }
    false
}

/// Plans rules with these metadata for these passes: the indices of the
/// rules in the order they run, or why they cannot be planned.
pub fn plan_order(metas: &Vec<RuleMetadata>, passes: &[RuleCategory]) -> (r: Result<Vec<usize>, PlannerError>)
    ensures
        match spec_plan(metas@, passes@) {
            Ok(o) => r matches Ok(v) && v@ == o,
            Err(f) => r matches Err(e) && failure_of(e) == f,
        },
{
    match find_duplicate(metas) {
        Some(i) => {
            return Err(PlannerError::DuplicateRuleId(metas[i].id.0.to_owned()));
        },
        None => {},
    }
    match validate(metas) {
        Some(e) => {
            return Err(e);
        },
        None => {},
    }
    let mut out: Vec<usize> = Vec::new();
    let mut m: usize = 0;
    while m < passes.len()
        invariant
            m <= passes@.len(),
            first_duplicate(metas@, metas@.len() as int) is None,
            rules_failure(metas@, metas@.len() as int) is None,
            plan_passes(metas@, passes@, m as int) == Ok::<Seq<usize>, Failure>(out@),
        decreases passes@.len() - m,
    {
        let c = passes[m];
        if !seen_before(passes, m, c) {
            let order = category_order_exec(metas, c);
            match schedule_exec(metas, &order) {
                Ok(o) => {
                    let mut k: usize = 0;
                    let ghost base = out@;
                    while k < o.len()
                        invariant
                            k <= o@.len(),
                            out@ == base + o@.take(k as int),
                        decreases o@.len() - k,
                    {
                        out.push(o[k]);
                        proof {
                            assert(o@.take(k + 1) =~= o@.take(k as int).push(o@[k as int]));
                        }
                        k = k + 1;
                    }
                    proof {
                        assert(o@.take(o@.len() as int) =~= o@);
                    }
                },
                Err(i) => {
                    proof {
                        lemma_schedule_blame(metas@, order@, seq![], order@.len());
                        assert(plan_passes(metas@, passes@, m + 1) == Err::<Seq<usize>, Failure>((3, rid(metas@, i as int), seq![])));
                        lemma_plan_err_extends(metas@, passes@, m + 1);
                    }
                    return Err(PlannerError::CircularDependency(metas[i].id.0.to_owned()));
                },
            }
        }
        m = m + 1;
    }
    Ok(out)
}

/// The first unplaced rule is a rule of the order.
proof fn lemma_first_unplaced_in(order: Seq<usize>, placed: Seq<usize>, n: int)
    requires
        0 <= n <= order.len(),
    ensures
        first_unplaced(order, placed, n) matches Some(i) ==> order.contains(i),
    decreases n,
{
    if n > 0 {
        lemma_first_unplaced_in(order, placed, n - 1);
        if first_unplaced(order, placed, n - 1) is None && !placed.contains(order[n - 1]) {
            assert(order[n - 1] == order[n - 1]);
        }
    }
}

/// A rule blamed for a cycle is a rule of the order.
proof fn lemma_schedule_blame(metas: Seq<RuleMetadata>, order: Seq<usize>, placed: Seq<usize>, fuel: nat)
    ensures
        schedule(metas, order, placed, fuel) matches Err(i) ==> order.contains(i),
    decreases fuel,
{
    if fuel > 0 {
        match pick(metas, order, placed, order.len() as int) {
            Some(p) => lemma_schedule_blame(metas, order, placed.push(order[p]), (fuel - 1) as nat),
            None => lemma_first_unplaced_in(order, placed, order.len() as int),
        }
    }
}

/// Once a prefix of the passes fails, the whole plan fails the same way.
proof fn lemma_plan_err_extends(metas: Seq<RuleMetadata>, passes: Seq<RuleCategory>, m: int)
    requires
        0 <= m <= passes.len(),
        plan_passes(metas, passes, m) is Err,
    ensures
        plan_passes(metas, passes, passes.len() as int) == plan_passes(metas, passes, m),
    decreases passes.len() - m,
{
    if m < passes.len() {
        lemma_plan_err_extends(metas, passes, m + 1);
    }
}

/// The metadata the rules declare, in order.
pub open spec fn metas_of(rules: Seq<Box<dyn FormatterRule>>) -> Seq<RuleMetadata> {
    Seq::new(rules.len(), |i: int| rules[i].spec_metadata())
}

/// Whether `m` is the metadata the rules report, one entry per rule: what
/// they declare, for rules that keep their promises.
pub open spec fn reported_metadata(rules: Seq<Box<dyn FormatterRule>>, m: Seq<RuleMetadata>) -> bool {
    &&& m.len() == rules.len()
    &&& rules_obey(rules) ==> m == metas_of(rules)
}

/// Reads the metadata of each rule.
pub fn collect_metadata(rules: &Vec<Box<dyn FormatterRule>>) -> (m: Vec<RuleMetadata>)
    ensures
        m@.len() == rules@.len(),
        rules_obey(rules@) ==> m@ == metas_of(rules@),
{
    let mut metas: Vec<RuleMetadata> = Vec::new();
    let mut i: usize = 0;
    while i < rules.len()
        invariant
            i <= rules@.len(),
            metas@.len() == i,
            rules_obey(rules@) ==> metas@ == metas_of(rules@).take(i as int),
        decreases rules@.len() - i,
    {
        let m = rules[i].metadata();
        metas.push(m);
        proof {
            if rules_obey(rules@) {
                assert(rules@[i as int].obeys_rule_spec());
                assert(metas_of(rules@).take(i + 1) =~= metas_of(rules@).take(i as int).push(rules@[i as int].spec_metadata()));
            }
        }
        i = i + 1;
    }
    proof {
        assert(metas_of(rules@).take(rules@.len() as int) =~= metas_of(rules@));
    }
    metas
}

/// The items at the positions `order` names, in that order; each position
/// is taken once.
pub(crate) fn arrange<T>(items: Vec<T>, order: &Vec<usize>) -> (out: Vec<T>)
    requires
        order@.no_duplicates(),
        forall|t: int| 0 <= t < order@.len() ==> (#[trigger] order@[t] as int) < items@.len(),
    ensures
        out@.len() == order@.len(),
        forall|t: int| 0 <= t < order@.len() ==> #[trigger] out@[t] == items@[order@[t] as int],
{
    let ghost orig = items@;
    let ghost n = orig.len();
    let total: usize = items.len();
    let mut slots: Vec<Option<T>> = Vec::new();
    let mut rest = items;
    while rest.len() > 0
        invariant
            n == orig.len(),
            slots@.len() + rest@.len() == n,
            rest@ == orig.skip(slots@.len() as int),
            forall|j: int| 0 <= j < slots@.len() ==> #[trigger] slots@[j] == Some(orig[j]),
        decreases rest@.len(),
    {
        let ghost before = rest@;
        let b = rest.remove(0);
        proof {
            let l = slots@.len() as int;
            assert(0 <= l < orig.len());
            assert(before == orig.skip(l));
            assert(orig.skip(l)[0] == orig[l]);
            assert(before[0] == orig[l]);
            assert(b == orig[l]);
            assert forall|j: int| 0 <= j < rest@.len() implies #[trigger] rest@[j] == orig.skip(l + 1)[j] by {
                assert(rest@[j] == before[j + 1]);
                assert(orig.skip(l)[j + 1] == orig[l + j + 1]);
            }
            assert(rest@ =~= orig.skip(l + 1));
        }
        slots.push(Some(b));
    }
    let mut out: Vec<T> = Vec::new();
    let mut k: usize = 0;
    while k < order.len()
        invariant
            k <= order@.len(),
            n == orig.len(),
            n == total,
            slots@.len() == n,
            order@.no_duplicates(),
            forall|t: int| 0 <= t < order@.len() ==> (#[trigger] order@[t] as int) < n,
            forall|j: int| 0 <= j < n ==> #[trigger] slots@[j] == (if order@.take(k as int).contains(j as usize) { None } else { Some(orig[j]) }),
            out@.len() == k,
            forall|t: int| 0 <= t < k ==> #[trigger] out@[t] == orig[order@[t] as int],
        decreases order@.len() - k,
    {
        let idx = order[k];
        let ghost before = slots@;
        proof {
            assert(!order@.take(k as int).contains(idx)) by {
                if order@.take(k as int).contains(idx) {
                    let u = choose|u: int| 0 <= u < k && order@.take(k as int)[u] == idx;
                    assert(order@[u] == order@[k as int]);
                }
            }
            assert(before[idx as int] == Some(orig[idx as int]));
        }
        let taken = slots.remove(idx);
        slots.insert(idx, None);
        proof {
            assert(slots@ =~= before.update(idx as int, None)) by {
                assert forall|j: int| 0 <= j < slots@.len() implies #[trigger] slots@[j] == before.update(idx as int, None)[j] by {
                    if j < idx {
                        assert(slots@[j] == before.remove(idx as int)[j]);
                    } else if j > idx {
                        assert(slots@[j] == before.remove(idx as int)[j - 1]);
                    }
                }
            }
            assert(order@.take(k + 1) =~= order@.take(k as int).push(idx));
            assert forall|j: int| 0 <= j < n implies #[trigger] slots@[j] == (if order@.take(k + 1).contains(j as usize) { None } else { Some(orig[j]) }) by {
                if j != idx {
                    assert(slots@[j] == before[j]);
                    let x = j as usize;
                    if order@.take(k + 1).contains(x) {
                        let u = choose|u: int| 0 <= u < k + 1 && #[trigger] order@.take(k + 1)[u] == x;
                        assert(u != k);
                        assert(order@.take(k as int)[u] == x);
                    }
                    if order@.take(k as int).contains(x) {
                        let u = choose|u: int| 0 <= u < k && #[trigger] order@.take(k as int)[u] == x;
                        assert(order@.take(k + 1)[u] == x);
                    }
                } else {
                    assert(order@.take(k + 1)[k as int] == idx);
                }
            }
        }
        match taken {
            Some(b) => {
                out.push(b);
            },
            None => {},
        }
        k = k + 1;
    }
    out
}

/// Orders formatting rules for a set of passes.
pub struct ExecutionPlanner;

impl ExecutionPlanner {
    /// The rules in the order they run, by the plan of their metadata
    /// (`spec_plan`), or why they cannot be planned. (Of rules that do not
    /// keep their promises, the plan goes by the metadata they report.)
    pub fn plan(rules: Vec<Box<dyn FormatterRule>>, passes: &[RuleCategory]) -> (r: Result<Vec<Box<dyn FormatterRule>>, PlannerError>)
        ensures
            rules_obey(rules@) ==> (r is Ok <==> spec_plan(metas_of(rules@), passes@) is Ok),
            rules_obey(rules@) ==> (r matches Err(e) ==> spec_plan(metas_of(rules@), passes@) == Err::<Seq<usize>, Failure>(failure_of(e))),
            rules_obey(rules@) ==> (r matches Ok(v) ==> spec_plan(metas_of(rules@), passes@) matches Ok(o) && v@.len() == o.len()
                && forall|t: int| 0 <= t < o.len() ==> #[trigger] v@[t] == rules@[o[t] as int]),
            exists|m: Seq<RuleMetadata>| #[trigger] reported_metadata(rules@, m) && match spec_plan(m, passes@) {
                Ok(o) => r matches Ok(v) && v@.len() == o.len() && forall|t: int|
                    0 <= t < o.len() ==> #[trigger] v@[t] == rules@[o[t] as int],
                Err(f) => r matches Err(e) && failure_of(e) == f,
            },
    {
        let metas = collect_metadata(&rules);
        proof {
            assert(reported_metadata(rules@, metas@));
        }
        let order = match plan_order(&metas, passes) {
            Ok(order) => order,
            Err(e) => {
                return Err(e);
            },
        };
        proof {
            lemma_plan_complete(metas@, passes@);
            lemma_plan_in_range(metas@, passes@);
        }
        Ok(arrange(rules, &order))
    }
}

/// Whether dependency `k` of the rule at position `t` of `placed` is placed before it.
pub open spec fn dependency_placed_before(metas: Seq<RuleMetadata>, placed: Seq<usize>, t: int, k: int) -> bool {
    exists|u: int| 0 <= u < t && #[trigger] rid(metas, placed[u] as int) == deps(metas, placed[t] as int)[k].0@
}

/// Whether every rule of `placed` comes after each rule it depends on.
pub open spec fn runs_after_dependencies(metas: Seq<RuleMetadata>, placed: Seq<usize>) -> bool {
    forall|t: int, k: int|
        0 <= t < placed.len() && 0 <= k < deps(metas, placed[t] as int).len() ==> #[trigger] dependency_placed_before(metas, placed, t, k)
}

/// Whether each rule of `placed` was, when placed, a candidate of the
/// highest priority among the candidates of `order`.
pub open spec fn placed_by_priority(metas: Seq<RuleMetadata>, order: Seq<usize>, placed: Seq<usize>) -> bool {
    forall|t: int, q: int|
        0 <= t < placed.len() && 0 <= q < order.len() && #[trigger] is_candidate(metas, placed.take(t), order[q])
            ==> metas[order[q] as int].priority <= metas[#[trigger] placed[t] as int].priority
}

/// A rule found by `position_of` is in the sequence.
proof fn lemma_position_found(metas: Seq<RuleMetadata>, placed: Seq<usize>, d: Seq<char>)
    ensures
        position_of(metas, placed, d) >= 0 ==> 0 <= position_of(metas, placed, d) < placed.len()
            && rid(metas, placed[position_of(metas, placed, d)] as int) == d,
    decreases placed.len(),
{
    if placed.len() > 0 {
        lemma_position_found(metas, placed.drop_last(), d);
    }
}

/// What `pick` returns: a candidate, of at least the priority of every
/// other candidate among the first `n`.
proof fn lemma_pick(metas: Seq<RuleMetadata>, order: Seq<usize>, placed: Seq<usize>, n: int)
    requires
        0 <= n <= order.len(),
    ensures
        pick(metas, order, placed, n) matches Some(p) ==> 0 <= p < n && is_candidate(metas, placed, order[p])
            && forall|q: int| 0 <= q < n && #[trigger] is_candidate(metas, placed, order[q])
                ==> metas[order[q] as int].priority <= metas[order[p] as int].priority,
        pick(metas, order, placed, n) is None ==> forall|q: int| 0 <= q < n ==> !#[trigger] is_candidate(metas, placed, order[q]),
    decreases n,
{
    if n > 0 {
        lemma_pick(metas, order, placed, n - 1);
    }
}

/// Scheduling keeps its placed rules distinct, taken from the order, after
/// their dependencies, and placed by priority.
proof fn lemma_schedule_sound(metas: Seq<RuleMetadata>, order: Seq<usize>, placed: Seq<usize>, fuel: nat)
    requires
        placed.no_duplicates(),
        forall|t: int| 0 <= t < placed.len() ==> order.contains(#[trigger] placed[t]),
        forall|t: int| 0 <= t < placed.len() ==> is_ready(metas, #[trigger] placed.take(t), placed[t] as int),
        placed_by_priority(metas, order, placed),
    ensures
        schedule(metas, order, placed, fuel) matches Ok(o) ==> {
            &&& o.no_duplicates()
            &&& forall|t: int| 0 <= t < o.len() ==> order.contains(#[trigger] o[t])
            &&& forall|t: int| 0 <= t < o.len() ==> is_ready(metas, #[trigger] o.take(t), o[t] as int)
            &&& placed_by_priority(metas, order, o)
        },
    decreases fuel,
{
    if fuel > 0 {
        lemma_pick(metas, order, placed, order.len() as int);
        match pick(metas, order, placed, order.len() as int) {
            Some(p) => {
                let x = order[p];
                let next = placed.push(x);
                assert(next.take(placed.len() as int) =~= placed);
                assert forall|t: int| 0 <= t < next.len() implies order.contains(#[trigger] next[t]) by {
                    if t < placed.len() {
                        assert(next[t] == placed[t]);
                    }
                }
                assert forall|t: int| 0 <= t < next.len() implies is_ready(metas, #[trigger] next.take(t), next[t] as int) by {
                    if t < placed.len() {
                        assert(next.take(t) =~= placed.take(t));
                        assert(next[t] == placed[t]);
                    }
                }
                assert forall|t: int, q: int|
                    0 <= t < next.len() && 0 <= q < order.len() && #[trigger] is_candidate(metas, next.take(t), order[q])
                    implies metas[order[q] as int].priority <= metas[#[trigger] next[t] as int].priority by {
                    if t < placed.len() {
                        assert(next.take(t) =~= placed.take(t));
                        assert(next[t] == placed[t]);
                    }
                }
                lemma_schedule_sound(metas, order, next, (fuel - 1) as nat);
            },
            None => {},
        }
    }
}

/// Within each pass, the plan places every rule after the rules it depends
/// on, never twice, and always a ready rule of the highest priority among
/// the ready ones.
pub proof fn lemma_schedule_laws(metas: Seq<RuleMetadata>, c: RuleCategory)
    ensures
        schedule(metas, category_order(metas, c), seq![], category_order(metas, c).len()) matches Ok(o) ==> {
            &&& o.no_duplicates()
            &&& forall|t: int| 0 <= t < o.len() ==> is_ready(metas, #[trigger] o.take(t), o[t] as int)
            &&& placed_by_priority(metas, category_order(metas, c), o)
        },
{
    let order = category_order(metas, c);
    let empty = Seq::<usize>::empty();
    assert forall|t: int, q: int|
        0 <= t < empty.len() && 0 <= q < order.len() && #[trigger] is_candidate(metas, empty.take(t), order[q])
        implies metas[order[q] as int].priority <= metas[#[trigger] empty[t] as int].priority by {}
    lemma_schedule_sound(metas, order, empty, order.len());
}

/// A dependency found in `b` is found at the same place after `a + b`'s first `a.len()` rules.
proof fn lemma_ready_suffix(metas: Seq<RuleMetadata>, a: Seq<usize>, b: Seq<usize>, d: Seq<char>)
    requires
        position_of(metas, b, d) >= 0,
    ensures
        exists|u: int| a.len() <= u < a.len() + b.len() && #[trigger] rid(metas, (a + b)[u] as int) == d,
{
    lemma_position_found(metas, b, d);
    let v = position_of(metas, b, d);
    assert((a + b)[a.len() + v] == b[v]);
    assert(rid(metas, (a + b)[a.len() + v] as int) == d);
}

/// The plan of the first `m` passes runs every rule after the rules it depends on.
proof fn lemma_plan_passes_ordered(metas: Seq<RuleMetadata>, passes: Seq<RuleCategory>, m: int)
    requires
        0 <= m <= passes.len(),
    ensures
        plan_passes(metas, passes, m) matches Ok(o) ==> runs_after_dependencies(metas, o),
    decreases m,
{
    if m > 0 {
        lemma_plan_passes_ordered(metas, passes, m - 1);
        match plan_passes(metas, passes, m - 1) {
            Ok(acc) => {
                let c = passes[m - 1];
                if !passes.take(m - 1).contains(c) {
                    let order = category_order(metas, c);
                    lemma_schedule_laws(metas, c);
                    match schedule(metas, order, seq![], order.len()) {
                        Ok(o) => {
                            let all = acc + o;
                            assert forall|t: int, k: int|
                                0 <= t < all.len() && 0 <= k < deps(metas, all[t] as int).len() implies #[trigger] dependency_placed_before(metas, all, t, k) by {
                                if t < acc.len() {
                                    assert(all[t] == acc[t]);
                                    let d = deps(metas, acc[t] as int)[k];
                                    assert(dependency_placed_before(metas, acc, t, k));
                                    let u = choose|u: int| 0 <= u < t && #[trigger] rid(metas, acc[u] as int) == d.0@;
                                    assert(all[u] == acc[u]);
                                    assert(rid(metas, all[u] as int) == d.0@);
                                } else {
                                    let s = t - acc.len();
                                    assert(all[t] == o[s]);
                                    assert(is_ready(metas, o.take(s), o[s] as int));
                                    let d = deps(metas, o[s] as int)[k];
                                    assert(position_of(metas, o.take(s), d.0@) >= 0);
                                    lemma_ready_suffix(metas, acc, o.take(s), d.0@);
                                    let u = choose|u: int| acc.len() <= u < acc.len() + o.take(s).len() && #[trigger] rid(metas, (acc + o.take(s))[u] as int) == d.0@;
                                    assert((acc + o.take(s))[u] == all[u]);
                                    assert(rid(metas, all[u] as int) == d.0@);
                                }
                            }
                            assert(runs_after_dependencies(metas, all));
                            assert(plan_passes(metas, passes, m) == Ok::<Seq<usize>, Failure>(all));
                        },
                        Err(_) => {},
                    }
                }
            },
            Err(_) => {},
        }
    }
}

/// A plan runs every rule after each rule it depends on.
pub proof fn lemma_plan_respects_dependencies(metas: Seq<RuleMetadata>, passes: Seq<RuleCategory>)
    ensures
        spec_plan(metas, passes) matches Ok(o) ==> runs_after_dependencies(metas, o),
{
    lemma_plan_passes_ordered(metas, passes, passes.len() as int);
}

/// The members of a category are rules of that category, among the first `n`.
proof fn lemma_members(metas: Seq<RuleMetadata>, c: RuleCategory, n: int)
    requires
        0 <= n <= metas.len(),
        metas.len() <= usize::MAX,
    ensures
        forall|t: int| 0 <= t < members(metas, c, n).len() ==> (#[trigger] members(metas, c, n)[t] as int) < n
            && metas[members(metas, c, n)[t] as int].category == c,
    decreases n,
{
    if n > 0 {
        lemma_members(metas, c, n - 1);
        let prev = members(metas, c, n - 1);
        let cur = members(metas, c, n);
        assert forall|t: int| 0 <= t < cur.len() implies (#[trigger] cur[t] as int) < n && metas[cur[t] as int].category == c by {
            if t < prev.len() {
                assert(cur[t] == prev[t]);
            }
        }
    }
}

/// The insertion point of a sorted list is one of its positions.
proof fn lemma_priority_position(metas: Seq<RuleMetadata>, sorted: Seq<usize>, p: u16)
    ensures
        0 <= priority_position(metas, sorted, p) <= sorted.len(),
    decreases sorted.len(),
{
    if sorted.len() > 0 {
        lemma_priority_position(metas, sorted.drop_last(), p);
    }
}

/// Sorting by priority keeps the elements.
proof fn lemma_by_priority_elements(metas: Seq<RuleMetadata>, s: Seq<usize>)
    ensures
        by_priority(metas, s).len() == s.len(),
        forall|t: int| 0 <= t < s.len() ==> s.contains(#[trigger] by_priority(metas, s)[t]),
    decreases s.len(),
{
    if s.len() > 0 {
        let t0 = s.drop_last();
        lemma_by_priority_elements(metas, t0);
        let sorted = by_priority(metas, t0);
        let pos = priority_position(metas, sorted, metas[s.last() as int].priority);
        lemma_priority_position(metas, sorted, metas[s.last() as int].priority);
        sorted.insert_ensures(pos, s.last());
        assert forall|t: int| 0 <= t < s.len() implies s.contains(#[trigger] by_priority(metas, s)[t]) by {
            let r = by_priority(metas, s);
            if t < pos {
                assert(r[t] == sorted[t]);
                assert(t0.contains(sorted[t]));
                let u = choose|u: int| 0 <= u < t0.len() && t0[u] == sorted[t];
                assert(s[u] == t0[u]);
            } else if t == pos {
                assert(s[s.len() - 1] == s.last());
            } else {
                assert(r[(t - 1) + 1] == sorted[t - 1]);
                assert(t0.contains(sorted[t - 1]));
                let u = choose|u: int| 0 <= u < t0.len() && t0[u] == sorted[t - 1];
                assert(s[u] == t0[u]);
            }
        }
    }
}

/// The rules of a category's order are rules of that category.
proof fn lemma_category_order(metas: Seq<RuleMetadata>, c: RuleCategory)
    requires
        metas.len() <= usize::MAX,
    ensures
        forall|t: int| 0 <= t < category_order(metas, c).len() ==> (#[trigger] category_order(metas, c)[t] as int) < metas.len()
            && metas[category_order(metas, c)[t] as int].category == c,
{
    let m = members(metas, c, metas.len() as int);
    lemma_members(metas, c, metas.len() as int);
    lemma_by_priority_elements(metas, m);
    assert forall|t: int| 0 <= t < category_order(metas, c).len() implies (#[trigger] category_order(metas, c)[t] as int) < metas.len()
        && metas[category_order(metas, c)[t] as int].category == c by {
        assert(m.contains(category_order(metas, c)[t]));
        let u = choose|u: int| 0 <= u < m.len() && m[u] == category_order(metas, c)[t];
        assert(m[u] == category_order(metas, c)[t]);
    }
}

/// The planned rules of the first `m` passes are rules of those passes' categories.
proof fn lemma_plan_passes_range(metas: Seq<RuleMetadata>, passes: Seq<RuleCategory>, m: int)
    requires
        0 <= m <= passes.len(),
        metas.len() <= usize::MAX,
    ensures
        plan_passes(metas, passes, m) matches Ok(o) ==> forall|t: int| 0 <= t < o.len() ==> (#[trigger] o[t] as int) < metas.len()
            && passes.take(m).contains(metas[o[t] as int].category),
    decreases m,
{
    if m > 0 {
        lemma_plan_passes_range(metas, passes, m - 1);
        match plan_passes(metas, passes, m - 1) {
            Ok(acc) => {
                let c = passes[m - 1];
                assert(passes.take(m)[m - 1] == c);
                assert forall|x: RuleCategory| passes.take(m - 1).contains(x) implies passes.take(m).contains(x) by {
                    let u = choose|u: int| 0 <= u < m - 1 && #[trigger] passes.take(m - 1)[u] == x;
                    assert(passes.take(m)[u] == x);
                }
                if !passes.take(m - 1).contains(c) {
                    let order = category_order(metas, c);
                    lemma_category_order(metas, c);
                    let empty = Seq::<usize>::empty();
                    assert forall|t: int, q: int|
                        0 <= t < empty.len() && 0 <= q < order.len() && #[trigger] is_candidate(metas, empty.take(t), order[q])
                        implies metas[order[q] as int].priority <= metas[#[trigger] empty[t] as int].priority by {}
                    lemma_schedule_sound(metas, order, empty, order.len());
                    match schedule(metas, order, seq![], order.len()) {
                        Ok(o) => {
                            let all = acc + o;
                            assert forall|t: int| 0 <= t < all.len() implies (#[trigger] all[t] as int) < metas.len()
                                && passes.take(m).contains(metas[all[t] as int].category) by {
                                if t < acc.len() {
                                    assert(all[t] == acc[t]);
                                } else {
                                    assert(all[t] == o[t - acc.len()]);
                                    assert(order.contains(o[t - acc.len()]));
                                    let u = choose|u: int| 0 <= u < order.len() && order[u] == o[t - acc.len()];
                                    assert(order[u] == all[t]);
                                }
                            }
                        },
                        Err(_) => {},
                    }
                }
            },
            Err(_) => {},
        }
    }
}

/// Every planned rule is one of the rules, of a category among the passes.
pub proof fn lemma_plan_in_range(metas: Seq<RuleMetadata>, passes: Seq<RuleCategory>)
    requires
        metas.len() <= usize::MAX,
    ensures
        spec_plan(metas, passes) matches Ok(o) ==> forall|t: int| 0 <= t < o.len() ==> (#[trigger] o[t] as int) < metas.len()
            && passes.contains(metas[o[t] as int].category),
{
    lemma_plan_passes_range(metas, passes, passes.len() as int);
    assert(passes.take(passes.len() as int) =~= passes);
}


/// The members of a category are distinct, and every rule of that category
/// among the first `n` is one of them.
proof fn lemma_members_complete(metas: Seq<RuleMetadata>, c: RuleCategory, n: int)
    requires
        0 <= n <= metas.len(),
        metas.len() <= usize::MAX,
    ensures
        members(metas, c, n).no_duplicates(),
        forall|i: int| 0 <= i < n && metas[i].category == c ==> members(metas, c, n).contains(i as usize),
    decreases n,
{
    if n > 0 {
        lemma_members_complete(metas, c, n - 1);
        lemma_members(metas, c, n - 1);
        let prev = members(metas, c, n - 1);
        let cur = members(metas, c, n);
        if metas[n - 1].category == c {
            let x = (n - 1) as usize;
            assert(!prev.contains(x)) by {
                if prev.contains(x) {
                    let u = choose|u: int| 0 <= u < prev.len() && prev[u] == x;
                    assert((prev[u] as int) < n - 1);
                }
            }
            assert(cur =~= prev.push(x));
            assert forall|a: int, b: int| 0 <= a < cur.len() && 0 <= b < cur.len() && a != b implies cur[a] != cur[b] by {
                if a < prev.len() && b < prev.len() {
                    assert(cur[a] == prev[a] && cur[b] == prev[b]);
                } else if a < prev.len() {
                    assert(cur[a] == prev[a]);
                } else if b < prev.len() {
                    assert(cur[b] == prev[b]);
                }
            }
            assert forall|i: int| 0 <= i < n && metas[i].category == c implies cur.contains(i as usize) by {
                if i < n - 1 {
                    let u = choose|u: int| 0 <= u < prev.len() && prev[u] == i as usize;
                    assert(cur[u] == prev[u]);
                } else {
                    assert(cur[prev.len() as int] == x);
                }
            }
        }
    }
}

/// Sorting distinct rules by priority keeps them distinct and keeps every one.
proof fn lemma_by_priority_complete(metas: Seq<RuleMetadata>, s: Seq<usize>)
    requires
        s.no_duplicates(),
    ensures
        by_priority(metas, s).no_duplicates(),
        forall|x: usize| s.contains(x) ==> #[trigger] by_priority(metas, s).contains(x),
    decreases s.len(),
{
    if s.len() > 0 {
        let t0 = s.drop_last();
        let last = s.last();
        assert(t0.no_duplicates()) by {
            assert forall|a: int, b: int| 0 <= a < t0.len() && 0 <= b < t0.len() && a != b implies t0[a] != t0[b] by {
                assert(t0[a] == s[a] && t0[b] == s[b]);
            }
        }
        lemma_by_priority_complete(metas, t0);
        lemma_by_priority_elements(metas, t0);
        let sorted = by_priority(metas, t0);
        let pos = priority_position(metas, sorted, metas[last as int].priority);
        lemma_priority_position(metas, sorted, metas[last as int].priority);
        sorted.insert_ensures(pos, last);
        let r = by_priority(metas, s);
        assert(r == sorted.insert(pos, last));
        assert(!sorted.contains(last)) by {
            if sorted.contains(last) {
                let u = choose|u: int| 0 <= u < sorted.len() && sorted[u] == last;
                assert(t0.contains(sorted[u]));
                let w = choose|w: int| 0 <= w < t0.len() && t0[w] == sorted[u];
                assert(s[w] == t0[w]);
                assert(s[s.len() - 1] == last);
            }
        }
        assert forall|a: int, b: int| 0 <= a < r.len() && 0 <= b < r.len() && a != b implies r[a] != r[b] by {
            let sa = if a < pos { a } else { a - 1 };
            let sb = if b < pos { b } else { b - 1 };
            if a == pos {
                assert(r[a] == last);
                if b < pos {
                    assert(r[b] == sorted[b]);
                } else {
                    assert(r[b] == sorted[b - 1]);
                }
            } else if b == pos {
                assert(r[b] == last);
                if a < pos {
                    assert(r[a] == sorted[a]);
                } else {
                    assert(r[a] == sorted[a - 1]);
                }
            } else {
                assert(r[a] == sorted[sa]);
                assert(r[b] == sorted[sb]);
                assert(sa != sb);
            }
        }
        assert forall|x: usize| s.contains(x) implies #[trigger] r.contains(x) by {
            let w = choose|w: int| 0 <= w < s.len() && s[w] == x;
            if w == s.len() - 1 {
                assert(r[pos] == x);
            } else {
                assert(t0[w] == x);
                assert(t0.contains(x));
                assert(sorted.contains(x));
                let u = choose|u: int| 0 <= u < sorted.len() && sorted[u] == x;
                if u < pos {
                    assert(r[u] == x);
                } else {
                    assert(r[u + 1] == x);
                }
            }
        }
    }
}

/// A category's order holds each rule of that category exactly once.
proof fn lemma_category_order_complete(metas: Seq<RuleMetadata>, c: RuleCategory)
    requires
        metas.len() <= usize::MAX,
    ensures
        category_order(metas, c).no_duplicates(),
        forall|i: int| 0 <= i < metas.len() && metas[i].category == c ==> category_order(metas, c).contains(i as usize),
{
    let m = members(metas, c, metas.len() as int);
    lemma_members_complete(metas, c, metas.len() as int);
    lemma_by_priority_complete(metas, m);
    assert forall|i: int| 0 <= i < metas.len() && metas[i].category == c implies category_order(metas, c).contains(i as usize) by {
        assert(m.contains(i as usize));
    }
}

/// With no first unplaced rule among the first `n`, each of them is placed.
proof fn lemma_first_unplaced_none(order: Seq<usize>, placed: Seq<usize>, n: int)
    requires
        0 <= n <= order.len(),
        first_unplaced(order, placed, n) is None,
    ensures
        forall|q: int| 0 <= q < n ==> placed.contains(#[trigger] order[q]),
    decreases n,
{
    if n > 0 {
        lemma_first_unplaced_none(order, placed, n - 1);
    }
}

/// Distinct rules of a distinct order, as many as the order has, are all of it.
proof fn lemma_placed_all(order: Seq<usize>, placed: Seq<usize>)
    requires
        order.no_duplicates(),
        placed.no_duplicates(),
        placed.len() >= order.len(),
        forall|t: int| 0 <= t < placed.len() ==> order.contains(#[trigger] placed[t]),
    ensures
        forall|x: usize| order.contains(x) ==> #[trigger] placed.contains(x),
{
    assert forall|x: usize| order.contains(x) implies #[trigger] placed.contains(x) by {
        if !placed.contains(x) {
            let ps = placed.to_set();
            let os = order.to_set().remove(x);
            placed.unique_seq_to_set();
            order.unique_seq_to_set();
            assert(ps.subset_of(os)) by {
                assert forall|y: usize| ps.contains(y) implies os.contains(y) by {
                    let t = choose|t: int| 0 <= t < placed.len() && placed[t] == y;
                    assert(order.contains(placed[t]));
                }
            }
            vstd::set_lib::lemma_len_subset(ps, os);
            assert(order.to_set().contains(x));
        }
    }
}

/// A schedule that succeeds from distinct rules of a distinct order, with
/// fuel for the rest of it, places every rule of the order, once each.
proof fn lemma_schedule_complete(metas: Seq<RuleMetadata>, order: Seq<usize>, placed: Seq<usize>, fuel: nat)
    requires
        order.no_duplicates(),
        placed.no_duplicates(),
        forall|t: int| 0 <= t < placed.len() ==> order.contains(#[trigger] placed[t]),
        placed.len() + fuel >= order.len(),
    ensures
        schedule(metas, order, placed, fuel) matches Ok(o) ==> o.no_duplicates()
            && forall|x: usize| order.contains(x) ==> #[trigger] o.contains(x),
    decreases fuel,
{
    if fuel == 0 {
        lemma_placed_all(order, placed);
    } else {
        lemma_pick(metas, order, placed, order.len() as int);
        match pick(metas, order, placed, order.len() as int) {
            Some(p) => {
                let x = order[p];
                let next = placed.push(x);
                assert forall|a: int, b: int| 0 <= a < next.len() && 0 <= b < next.len() && a != b implies next[a] != next[b] by {
                    if a < placed.len() && b < placed.len() {
                        assert(next[a] == placed[a] && next[b] == placed[b]);
                    } else if a < placed.len() {
                        assert(next[a] == placed[a]);
                    } else if b < placed.len() {
                        assert(next[b] == placed[b]);
                    }
                }
                assert forall|t: int| 0 <= t < next.len() implies order.contains(#[trigger] next[t]) by {
                    if t < placed.len() {
                        assert(next[t] == placed[t]);
                    }
                }
                lemma_schedule_complete(metas, order, next, (fuel - 1) as nat);
            },
            None => {
                if first_unplaced(order, placed, order.len() as int) is None {
                    lemma_first_unplaced_none(order, placed, order.len() as int);
                    assert forall|x: usize| order.contains(x) implies #[trigger] placed.contains(x) by {
                        let q = choose|q: int| 0 <= q < order.len() && order[q] == x;
                        assert(placed.contains(order[q]));
                    }
                }
            },
        }
    }
}

/// The plan of the first `m` passes holds each rule of their categories exactly once.
proof fn lemma_plan_passes_complete(metas: Seq<RuleMetadata>, passes: Seq<RuleCategory>, m: int)
    requires
        0 <= m <= passes.len(),
        metas.len() <= usize::MAX,
    ensures
        plan_passes(metas, passes, m) matches Ok(o) ==> o.no_duplicates()
            && forall|i: int| 0 <= i < metas.len() && passes.take(m).contains(#[trigger] metas[i].category) ==> o.contains(i as usize),
    decreases m,
{
    if m > 0 {
        lemma_plan_passes_complete(metas, passes, m - 1);
        lemma_plan_passes_range(metas, passes, m - 1);
        match plan_passes(metas, passes, m - 1) {
            Ok(acc) => {
                let c = passes[m - 1];
                assert(passes.take(m)[m - 1] == c);
                assert forall|x: RuleCategory| passes.take(m).contains(x) implies passes.take(m - 1).contains(x) || x == c by {
                    let u = choose|u: int| 0 <= u < m && #[trigger] passes.take(m)[u] == x;
                    if u < m - 1 {
                        assert(passes.take(m - 1)[u] == x);
                    }
                }
                if passes.take(m - 1).contains(c) {
                    assert(plan_passes(metas, passes, m) == Ok::<Seq<usize>, Failure>(acc));
                } else {
                    let order = category_order(metas, c);
                    lemma_category_order(metas, c);
                    lemma_category_order_complete(metas, c);
                    lemma_schedule_complete(metas, order, seq![], order.len());
                    let empty = Seq::<usize>::empty();
                    assert forall|t: int, q: int|
                        0 <= t < empty.len() && 0 <= q < order.len() && #[trigger] is_candidate(metas, empty.take(t), order[q])
                        implies metas[order[q] as int].priority <= metas[#[trigger] empty[t] as int].priority by {}
                    lemma_schedule_sound(metas, order, empty, order.len());
                    match schedule(metas, order, seq![], order.len()) {
                        Ok(o) => {
                            let all = acc + o;
                            assert forall|a: int, b: int| 0 <= a < all.len() && 0 <= b < all.len() && a != b implies all[a] != all[b] by {
                                if a < acc.len() && b < acc.len() {
                                    assert(all[a] == acc[a] && all[b] == acc[b]);
                                } else if a >= acc.len() && b >= acc.len() {
                                    assert(all[a] == o[a - acc.len()] && all[b] == o[b - acc.len()]);
                                } else {
                                    let (i, j) = if a < acc.len() { (a, b) } else { (b, a) };
                                    assert(all[i] == acc[i]);
                                    assert(all[j] == o[j - acc.len()]);
                                    assert(order.contains(o[j - acc.len()]));
                                    let u = choose|u: int| 0 <= u < order.len() && order[u] == o[j - acc.len()];
                                    assert(metas[order[u] as int].category == c);
                                    assert(passes.take(m - 1).contains(metas[acc[i] as int].category));
                                }
                            }
                            assert forall|i: int| 0 <= i < metas.len() && passes.take(m).contains(#[trigger] metas[i].category)
                                implies all.contains(i as usize) by {
                                if passes.take(m - 1).contains(metas[i].category) {
                                    let u = choose|u: int| 0 <= u < acc.len() && acc[u] == i as usize;
                                    assert(all[u] == acc[u]);
                                } else {
                                    assert(order.contains(i as usize));
                                    assert(o.contains(i as usize));
                                    let u = choose|u: int| 0 <= u < o.len() && o[u] == i as usize;
                                    assert(all[acc.len() + u] == o[u]);
                                }
                            }
                            assert(plan_passes(metas, passes, m) == Ok::<Seq<usize>, Failure>(all));
                        },
                        Err(_) => {},
                    }
                }
            },
            Err(_) => {},
        }
    }
}

/// A plan runs each rule of the passes' categories exactly once: with
/// `lemma_plan_in_range`, the plan is an ordering of exactly those rules.
pub proof fn lemma_plan_complete(metas: Seq<RuleMetadata>, passes: Seq<RuleCategory>)
    requires
        metas.len() <= usize::MAX,
    ensures
        spec_plan(metas, passes) matches Ok(o) ==> o.no_duplicates()
            && forall|i: int| 0 <= i < metas.len() && passes.contains(#[trigger] metas[i].category) ==> o.contains(i as usize),
{
    lemma_plan_passes_complete(metas, passes, passes.len() as int);
    assert(passes.take(passes.len() as int) =~= passes);
}


/// Whether an earlier rule has the id of rule `j`.
pub open spec fn has_earlier_twin(metas: Seq<RuleMetadata>, j: int) -> bool {
    exists|i: int| 0 <= i < j && #[trigger] rid(metas, i) == rid(metas, j)
}

/// `first_duplicate` finds the first rule with an earlier twin, and nothing
/// when there is none.
proof fn lemma_first_duplicate(metas: Seq<RuleMetadata>, n: int)
    requires
        0 <= n <= metas.len(),
    ensures
        match first_duplicate(metas, n) {
            Some(j) => 0 <= j < n && has_earlier_twin(metas, j)
                && forall|k: int| 0 <= k < j ==> !#[trigger] has_earlier_twin(metas, k),
            None => forall|k: int| 0 <= k < n ==> !#[trigger] has_earlier_twin(metas, k),
        },
    decreases n,
{
    if n > 0 {
        lemma_first_duplicate(metas, n - 1);
    }
}

/// Validation failures never name a duplicate id.
proof fn lemma_rules_failure_kind(metas: Seq<RuleMetadata>, n: int)
    ensures
        rules_failure(metas, n) matches Some(f) ==> f.0 == 0 || f.0 == 1 || f.0 == 4,
    decreases n,
{
    if n > 0 {
        lemma_rules_failure_kind(metas, n - 1);
        lemma_deps_failure_kind(metas, n - 1, deps(metas, n - 1).len() as int);
    }
}

proof fn lemma_deps_failure_kind(metas: Seq<RuleMetadata>, i: int, k: int)
    ensures
        deps_failure(metas, i, k) matches Some(f) ==> f.0 == 0 || f.0 == 1 || f.0 == 4,
    decreases k,
{
    if k > 0 {
        lemma_deps_failure_kind(metas, i, k - 1);
    }
}

/// Scheduling the passes only ever fails on a cycle.
proof fn lemma_plan_passes_kind(metas: Seq<RuleMetadata>, passes: Seq<RuleCategory>, m: int)
    ensures
        plan_passes(metas, passes, m) matches Err(f) ==> f.0 == 3,
    decreases m,
{
    if m > 0 {
        lemma_plan_passes_kind(metas, passes, m - 1);
    }
}

/// Duplicate ids are found first: when some rule has the id of an earlier
/// one, the plan fails naming the first such rule's id, whatever the passes;
/// when all ids differ, it never fails for a duplicate id.
pub proof fn lemma_plan_duplicate_ids(metas: Seq<RuleMetadata>, passes: Seq<RuleCategory>)
    ensures
        (exists|j: int| 0 <= j < metas.len() && #[trigger] has_earlier_twin(metas, j)) ==> exists|j: int|
            0 <= j < metas.len() && #[trigger] has_earlier_twin(metas, j)
                && (forall|k: int| 0 <= k < j ==> !#[trigger] has_earlier_twin(metas, k))
                && spec_plan(metas, passes) == Err::<Seq<usize>, Failure>((2, rid(metas, j), seq![])),
        (forall|j: int| 0 <= j < metas.len() ==> !#[trigger] has_earlier_twin(metas, j))
            ==> !(spec_plan(metas, passes) matches Err(f) && f.0 == 2),
{
    lemma_first_duplicate(metas, metas.len() as int);
    lemma_rules_failure_kind(metas, metas.len() as int);
    lemma_plan_passes_kind(metas, passes, passes.len() as int);
    match first_duplicate(metas, metas.len() as int) {
        Some(j) => {
            assert(has_earlier_twin(metas, j));
        },
        None => {},
    }
}

/// Whether rule `i` may depend on `d`: `d` is the id of another rule of the
/// same category.
pub open spec fn valid_dependency(metas: Seq<RuleMetadata>, i: int, d: Seq<char>) -> bool {
    &&& d != rid(metas, i)
    &&& exists|j: int| 0 <= j < metas.len() && #[trigger] rid(metas, j) == d && metas[j].category == metas[i].category
}

/// `index_of` finds a rule with the id, or there is none.
proof fn lemma_index_of(metas: Seq<RuleMetadata>, id: Seq<char>, n: int)
    requires
        0 <= n <= metas.len(),
    ensures
        index_of(metas, id, n) matches Some(j) ==> 0 <= j < n && rid(metas, j) == id,
        index_of(metas, id, n) is None ==> forall|j: int| 0 <= j < n ==> #[trigger] rid(metas, j) != id,
    decreases n,
{
    if n > 0 {
        lemma_index_of(metas, id, n - 1);
    }
}

proof fn lemma_deps_valid(metas: Seq<RuleMetadata>, i: int, k: int)
    requires
        0 <= i < metas.len(),
        0 <= k <= deps(metas, i).len(),
        deps_failure(metas, i, k) is None,
        first_duplicate(metas, metas.len() as int) is None,
    ensures
        forall|q: int| 0 <= q < k ==> valid_dependency(metas, i, #[trigger] deps(metas, i)[q].0@),
    decreases k,
{
    if k > 0 {
        lemma_deps_valid(metas, i, k - 1);
        let d = deps(metas, i)[k - 1].0@;
        lemma_index_of(metas, d, metas.len() as int);
        lemma_first_duplicate(metas, metas.len() as int);
        match index_of(metas, d, metas.len() as int) {
            Some(j) => {
                assert(rid(metas, j) == d);
            },
            None => {},
        }
    }
}

proof fn lemma_rules_valid(metas: Seq<RuleMetadata>, n: int)
    requires
        0 <= n <= metas.len(),
        rules_failure(metas, n) is None,
        first_duplicate(metas, metas.len() as int) is None,
    ensures
        forall|i: int, q: int| 0 <= i < n && 0 <= q < deps(metas, i).len()
            ==> valid_dependency(metas, i, #[trigger] deps(metas, i)[q].0@),
    decreases n,
{
    if n > 0 {
        lemma_rules_valid(metas, n - 1);
        lemma_deps_valid(metas, n - 1, deps(metas, n - 1).len() as int);
    }
}

/// A plan succeeds only when every dependency of every rule (whatever its
/// category, planned or not) names another rule of the same category.
pub proof fn lemma_plan_dependencies_valid(metas: Seq<RuleMetadata>, passes: Seq<RuleCategory>)
    ensures
        spec_plan(metas, passes) is Ok ==> forall|i: int, q: int|
            0 <= i < metas.len() && 0 <= q < deps(metas, i).len() ==> valid_dependency(metas, i, #[trigger] deps(metas, i)[q].0@),
{
    if spec_plan(metas, passes) is Ok {
        lemma_rules_valid(metas, metas.len() as int);
    }
}

/// The first position of category `c` among the first `n` passes, or -1.
pub open spec fn pass_index(passes: Seq<RuleCategory>, c: RuleCategory, n: int) -> int
    decreases n,
{
    if n <= 0 {
        -1
    } else if pass_index(passes, c, n - 1) >= 0 {
        pass_index(passes, c, n - 1)
    } else if passes[n - 1] == c {
        n - 1
    } else {
        -1
    }
}

proof fn lemma_pass_index(passes: Seq<RuleCategory>, c: RuleCategory, n: int)
    requires
        0 <= n <= passes.len(),
    ensures
        passes.take(n).contains(c) ==> 0 <= pass_index(passes, c, n) < n && passes[pass_index(passes, c, n)] == c,
        !passes.take(n).contains(c) ==> pass_index(passes, c, n) == -1,
        pass_index(passes, c, n) >= 0 ==> passes.take(n).contains(c),
    decreases n,
{
    if n > 0 {
        lemma_pass_index(passes, c, n - 1);
        assert(passes.take(n)[n - 1] == passes[n - 1]);
        if passes.take(n - 1).contains(c) {
            let u = choose|u: int| 0 <= u < n - 1 && #[trigger] passes.take(n - 1)[u] == c;
            assert(passes.take(n)[u] == c);
        }
        if passes.take(n).contains(c) && !passes.take(n - 1).contains(c) {
            let u = choose|u: int| 0 <= u < n && #[trigger] passes.take(n)[u] == c;
            if u < n - 1 {
                assert(passes.take(n - 1)[u] == c);
            }
        }
    }
}

/// A first position among fewer passes stays the first among more.
proof fn lemma_pass_index_extends(passes: Seq<RuleCategory>, c: RuleCategory, n: int, m: int)
    requires
        0 <= n <= m <= passes.len(),
        pass_index(passes, c, n) >= 0,
    ensures
        pass_index(passes, c, m) == pass_index(passes, c, n),
    decreases m - n,
{
    if n < m {
        lemma_pass_index_extends(passes, c, n, m - 1);
    }
}

/// The plan of the first `m` passes groups rules by pass: the first pass of
/// an earlier rule's category comes no later than a later rule's.
proof fn lemma_plan_passes_grouped(metas: Seq<RuleMetadata>, passes: Seq<RuleCategory>, m: int)
    requires
        0 <= m <= passes.len(),
        metas.len() <= usize::MAX,
    ensures
        plan_passes(metas, passes, m) matches Ok(o) ==> forall|t: int, u: int| 0 <= t < u < o.len()
            ==> pass_index(passes, metas[#[trigger] o[t] as int].category, m) <= pass_index(passes, metas[#[trigger] o[u] as int].category, m),
        plan_passes(metas, passes, m) matches Ok(o) ==> forall|t: int| 0 <= t < o.len()
            ==> 0 <= #[trigger] pass_index(passes, metas[o[t] as int].category, m) < m,
    decreases m,
{
    if m > 0 {
        lemma_plan_passes_grouped(metas, passes, m - 1);
        lemma_plan_passes_range(metas, passes, m - 1);
        lemma_plan_passes_range(metas, passes, m);
        match plan_passes(metas, passes, m - 1) {
            Ok(acc) => {
                let c = passes[m - 1];
                match plan_passes(metas, passes, m) {
                    Ok(all) => {
                        assert forall|t: int| 0 <= t < acc.len() implies #[trigger] pass_index(passes, metas[acc[t] as int].category, m)
                            == pass_index(passes, metas[acc[t] as int].category, m - 1) by {
                            lemma_pass_index_extends(passes, metas[acc[t] as int].category, m - 1, m);
                        }
                        if passes.take(m - 1).contains(c) {
                            assert(all == acc);
                        } else {
                            let order = category_order(metas, c);
                            lemma_category_order(metas, c);
                            lemma_schedule_blame(metas, order, seq![], order.len());
                            let empty = Seq::<usize>::empty();
                            assert forall|t: int, q: int|
                                0 <= t < empty.len() && 0 <= q < order.len() && #[trigger] is_candidate(metas, empty.take(t), order[q])
                                implies metas[order[q] as int].category == c by {}
                            lemma_schedule_sound(metas, order, empty, order.len());
                            let o = all.skip(acc.len() as int);
                            assert(all == acc + o);
                            lemma_pass_index(passes, c, m - 1);
                            lemma_pass_index(passes, c, m);
                            assert(passes.take(m)[m - 1] == c);
                            assert(pass_index(passes, c, m) == m - 1);
                            assert forall|t: int| 0 <= t < o.len() implies metas[#[trigger] o[t] as int].category == c by {
                                assert(order.contains(o[t]));
                                let w = choose|w: int| 0 <= w < order.len() && order[w] == o[t];
                                assert(metas[order[w] as int].category == c);
                            }
                            assert forall|t: int| 0 <= t < all.len() implies 0 <= #[trigger] pass_index(passes, metas[all[t] as int].category, m) < m by {
                                if t < acc.len() {
                                    assert(all[t] == acc[t]);
                                } else {
                                    assert(all[t] == o[t - acc.len()]);
                                }
                            }
                            assert forall|t: int, u: int| 0 <= t < u < all.len() implies pass_index(passes, metas[#[trigger] all[t] as int].category, m)
                                <= pass_index(passes, metas[#[trigger] all[u] as int].category, m) by {
                                if u < acc.len() {
                                    assert(all[t] == acc[t] && all[u] == acc[u]);
                                } else if t < acc.len() {
                                    assert(all[t] == acc[t]);
                                    assert(all[u] == o[u - acc.len()]);
                                } else {
                                    assert(all[t] == o[t - acc.len()]);
                                    assert(all[u] == o[u - acc.len()]);
                                }
                            }
                        }
                    },
                    Err(_) => {},
                }
            },
            Err(_) => {},
        }
    }
}

/// A plan groups the rules by pass, in the order in which the passes first
/// name their categories.
pub proof fn lemma_plan_grouped_by_pass(metas: Seq<RuleMetadata>, passes: Seq<RuleCategory>)
    requires
        metas.len() <= usize::MAX,
    ensures
        spec_plan(metas, passes) matches Ok(o) ==> forall|t: int, u: int| 0 <= t < u < o.len()
            ==> pass_index(passes, metas[#[trigger] o[t] as int].category, passes.len() as int)
                <= pass_index(passes, metas[#[trigger] o[u] as int].category, passes.len() as int),
{
    lemma_plan_passes_grouped(metas, passes, passes.len() as int);
}


/// Whether all rule ids differ.
pub open spec fn distinct_ids(metas: Seq<RuleMetadata>) -> bool {
    forall|j: int| 0 <= j < metas.len() ==> !#[trigger] has_earlier_twin(metas, j)
}

/// The error for rule `i` depending on `d`, when that is not allowed: the
/// rule itself, a rule of another category, or no rule at all.
pub open spec fn dependency_error(metas: Seq<RuleMetadata>, i: int, d: Seq<char>) -> Failure {
    if d == rid(metas, i) {
        (4, rid(metas, i), seq![])
    } else if exists|j: int| 0 <= j < metas.len() && #[trigger] rid(metas, j) == d {
        (1, rid(metas, i), d)
    } else {
        (0, rid(metas, i), d)
    }
}

/// Whether the first `k` dependencies of rule `i` are all allowed.
pub open spec fn deps_valid_upto(metas: Seq<RuleMetadata>, i: int, k: int) -> bool {
    forall|q: int| 0 <= q < k ==> valid_dependency(metas, i, #[trigger] deps(metas, i)[q].0@)
}

/// With distinct ids, a dependency fails exactly when it is not allowed, and
/// with the error that says why.
proof fn lemma_dep_failure(metas: Seq<RuleMetadata>, i: int, d: Seq<char>)
    requires
        0 <= i < metas.len(),
        distinct_ids(metas),
    ensures
        dep_failure(metas, i, d) is None <==> valid_dependency(metas, i, d),
        dep_failure(metas, i, d) matches Some(f) ==> f == dependency_error(metas, i, d),
{
    lemma_index_of(metas, d, metas.len() as int);
    if d != rid(metas, i) {
        match index_of(metas, d, metas.len() as int) {
            Some(j) => {
                assert(rid(metas, j) == d);
                assert forall|j2: int| 0 <= j2 < metas.len() && #[trigger] rid(metas, j2) == d implies j2 == j by {
                    if j2 < j {
                        assert(has_earlier_twin(metas, j));
                    } else if j2 > j {
                        assert(rid(metas, j) == rid(metas, j2));
                        assert(has_earlier_twin(metas, j2));
                    }
                }
            },
            None => {},
        }
    }
}

/// `deps_failure` is the error of the first dependency that is not allowed.
proof fn lemma_deps_failure_first(metas: Seq<RuleMetadata>, i: int, k: int)
    requires
        0 <= i < metas.len(),
        0 <= k <= deps(metas, i).len(),
        distinct_ids(metas),
    ensures
        deps_failure(metas, i, k) is None <==> deps_valid_upto(metas, i, k),
        deps_failure(metas, i, k) matches Some(f) ==> exists|q: int|
            0 <= q < k && deps_valid_upto(metas, i, q) && !valid_dependency(metas, i, #[trigger] deps(metas, i)[q].0@)
                && f == dependency_error(metas, i, deps(metas, i)[q].0@),
    decreases k,
{
    if k > 0 {
        lemma_deps_failure_first(metas, i, k - 1);
        let d = deps(metas, i)[k - 1].0@;
        lemma_dep_failure(metas, i, d);
        match deps_failure(metas, i, k - 1) {
            Some(f) => {
                let q = choose|q: int|
                    0 <= q < k - 1 && deps_valid_upto(metas, i, q) && !valid_dependency(metas, i, #[trigger] deps(metas, i)[q].0@)
                        && f == dependency_error(metas, i, deps(metas, i)[q].0@);
                assert(0 <= q < k && deps_valid_upto(metas, i, q) && !valid_dependency(metas, i, deps(metas, i)[q].0@));
                assert(!deps_valid_upto(metas, i, k));
            },
            None => {
                assert(deps_valid_upto(metas, i, k - 1));
                if !valid_dependency(metas, i, d) {
                    assert(!deps_valid_upto(metas, i, k));
                } else {
                    assert forall|q: int| 0 <= q < k implies valid_dependency(metas, i, #[trigger] deps(metas, i)[q].0@) by {
                        if q < k - 1 {
                            assert(deps_valid_upto(metas, i, k - 1));
                        }
                    }
                }
            },
        }
    }
}

/// `rules_failure` is the error of the first rule with a dependency that is
/// not allowed.
proof fn lemma_rules_failure_first(metas: Seq<RuleMetadata>, n: int)
    requires
        0 <= n <= metas.len(),
        distinct_ids(metas),
    ensures
        rules_failure(metas, n) is None <==> forall|i: int| 0 <= i < n ==> #[trigger] deps_valid_upto(metas, i, deps(metas, i).len() as int),
        rules_failure(metas, n) matches Some(f) ==> exists|i: int, q: int|
            0 <= i < n && 0 <= q < deps(metas, i).len()
                && (forall|i2: int| 0 <= i2 < i ==> #[trigger] deps_valid_upto(metas, i2, deps(metas, i2).len() as int))
                && deps_valid_upto(metas, i, q) && !valid_dependency(metas, i, #[trigger] deps(metas, i)[q].0@)
                && f == dependency_error(metas, i, deps(metas, i)[q].0@),
    decreases n,
{
    if n > 0 {
        lemma_rules_failure_first(metas, n - 1);
        let l = deps(metas, n - 1).len() as int;
        lemma_deps_failure_first(metas, n - 1, l);
        match rules_failure(metas, n - 1) {
            Some(f) => {
                let (i, q) = choose|i: int, q: int|
                    0 <= i < n - 1 && 0 <= q < deps(metas, i).len()
                        && (forall|i2: int| 0 <= i2 < i ==> #[trigger] deps_valid_upto(metas, i2, deps(metas, i2).len() as int))
                        && deps_valid_upto(metas, i, q) && !valid_dependency(metas, i, #[trigger] deps(metas, i)[q].0@)
                        && f == dependency_error(metas, i, deps(metas, i)[q].0@);
                assert(!deps_valid_upto(metas, i, deps(metas, i).len() as int));
            },
            None => {
                match deps_failure(metas, n - 1, l) {
                    Some(f) => {
                        let q = choose|q: int|
                            0 <= q < l && deps_valid_upto(metas, n - 1, q) && !valid_dependency(metas, n - 1, #[trigger] deps(metas, n - 1)[q].0@)
                                && f == dependency_error(metas, n - 1, deps(metas, n - 1)[q].0@);
                        assert(0 <= n - 1 < n && 0 <= q < deps(metas, n - 1).len());
                        assert(!deps_valid_upto(metas, n - 1, l));
                    },
                    None => {},
                }
            },
        }
    }
}

/// With distinct ids, dependencies are checked rule by rule, in order, and
/// within a rule in the order declared, for every rule whatever the passes:
/// the plan fails on the first dependency that is not allowed, with the error
/// that says why (the rule itself, a rule of another category, or no such
/// rule); when every dependency is allowed it fails, if at all, on a cycle.
pub proof fn lemma_plan_validation(metas: Seq<RuleMetadata>, passes: Seq<RuleCategory>)
    requires
        distinct_ids(metas),
    ensures
        (exists|i: int, q: int| 0 <= i < metas.len() && 0 <= q < deps(metas, i).len()
            && !valid_dependency(metas, i, #[trigger] deps(metas, i)[q].0@)) ==> exists|i: int, q: int|
            0 <= i < metas.len() && 0 <= q < deps(metas, i).len()
                && (forall|i2: int| 0 <= i2 < i ==> #[trigger] deps_valid_upto(metas, i2, deps(metas, i2).len() as int))
                && deps_valid_upto(metas, i, q) && !valid_dependency(metas, i, #[trigger] deps(metas, i)[q].0@)
                && spec_plan(metas, passes) == Err::<Seq<usize>, Failure>(dependency_error(metas, i, deps(metas, i)[q].0@)),
        (forall|i: int, q: int| 0 <= i < metas.len() && 0 <= q < deps(metas, i).len()
            ==> valid_dependency(metas, i, #[trigger] deps(metas, i)[q].0@)) ==> (spec_plan(metas, passes) matches Err(f) ==> f.0 == 3),
{
    lemma_first_duplicate(metas, metas.len() as int);
    lemma_rules_failure_first(metas, metas.len() as int);
    lemma_plan_passes_kind(metas, passes, passes.len() as int);
    if exists|i: int, q: int| 0 <= i < metas.len() && 0 <= q < deps(metas, i).len()
        && !valid_dependency(metas, i, #[trigger] deps(metas, i)[q].0@) {
        let (i, q) = choose|i: int, q: int| 0 <= i < metas.len() && 0 <= q < deps(metas, i).len()
            && !valid_dependency(metas, i, #[trigger] deps(metas, i)[q].0@);
        assert(!deps_valid_upto(metas, i, deps(metas, i).len() as int));
    }
    if forall|i: int, q: int| 0 <= i < metas.len() && 0 <= q < deps(metas, i).len()
        ==> valid_dependency(metas, i, #[trigger] deps(metas, i)[q].0@) {
        assert forall|i: int| 0 <= i < metas.len() implies #[trigger] deps_valid_upto(metas, i, deps(metas, i).len() as int) by {}
    }
}


/// A successful plan is a topological order of exactly the rules of the
/// passes' categories, grouped by pass: each such rule once, no other rule,
/// the groups in the order the passes first name their categories, and every
/// rule after the rules it depends on.
pub proof fn lemma_plan_topological(metas: Seq<RuleMetadata>, passes: Seq<RuleCategory>)
    requires
        metas.len() <= usize::MAX,
    ensures
        spec_plan(metas, passes) matches Ok(o) ==> {
            &&& o.no_duplicates()
            &&& forall|t: int| 0 <= t < o.len() ==> (#[trigger] o[t] as int) < metas.len()
                && passes.contains(metas[o[t] as int].category)
            &&& forall|i: int| 0 <= i < metas.len() && passes.contains(#[trigger] metas[i].category) ==> o.contains(i as usize)
            &&& forall|t: int, u: int| 0 <= t < u < o.len()
                ==> pass_index(passes, metas[#[trigger] o[t] as int].category, passes.len() as int)
                    <= pass_index(passes, metas[#[trigger] o[u] as int].category, passes.len() as int)
            &&& runs_after_dependencies(metas, o)
        },
{
    lemma_plan_complete(metas, passes);
    lemma_plan_in_range(metas, passes);
    lemma_plan_grouped_by_pass(metas, passes);
    lemma_plan_respects_dependencies(metas, passes);
}


/// Whether every dependency of every rule names another rule of the same category.
pub open spec fn all_dependencies_valid(metas: Seq<RuleMetadata>) -> bool {
    forall|i: int, q: int| 0 <= i < metas.len() && 0 <= q < deps(metas, i).len()
        ==> valid_dependency(metas, i, #[trigger] deps(metas, i)[q].0@)
}

/// Whether `rank` puts each rule of category `c` above every rule it depends on.
pub open spec fn ranked(metas: Seq<RuleMetadata>, c: RuleCategory, rank: spec_fn(int) -> int) -> bool {
    forall|i: int, q: int, j: int|
        0 <= i < metas.len() && metas[i].category == c && 0 <= q < deps(metas, i).len() && 0 <= j < metas.len()
            && #[trigger] rid(metas, j) == #[trigger] deps(metas, i)[q].0@ ==> rank(j) < rank(i)
}

/// Whether the dependencies among the rules of category `c` have no cycle:
/// some ranking puts every such rule above the rules it depends on.
pub open spec fn acyclic_category(metas: Seq<RuleMetadata>, c: RuleCategory) -> bool {
    exists|rank: spec_fn(int) -> int| #[trigger] ranked(metas, c, rank)
}

/// A placed rule with id `d` is found by `position_of`.
proof fn lemma_position_of_placed(metas: Seq<RuleMetadata>, placed: Seq<usize>, x: usize, d: Seq<char>)
    requires
        placed.contains(x),
        rid(metas, x as int) == d,
    ensures
        position_of(metas, placed, d) >= 0,
    decreases placed.len(),
{
    if placed.len() > 0 {
        if placed.last() != x {
            let u = choose|u: int| 0 <= u < placed.len() && placed[u] == x;
            assert(placed.drop_last()[u] == x);
            lemma_position_of_placed(metas, placed.drop_last(), x, d);
        }
    }
}

/// The first unplaced rule is a rule of the order that is not placed.
proof fn lemma_first_unplaced_unplaced(order: Seq<usize>, placed: Seq<usize>, n: int)
    requires
        0 <= n <= order.len(),
    ensures
        first_unplaced(order, placed, n) matches Some(i) ==> !placed.contains(i),
    decreases n,
{
    if n > 0 {
        lemma_first_unplaced_unplaced(order, placed, n - 1);
    }
}

/// Among the unplaced rules of the first `n` of the order, one of least rank.
proof fn lemma_least_unplaced(order: Seq<usize>, placed: Seq<usize>, rank: spec_fn(int) -> int, n: int) -> (q: int)
    requires
        0 <= n <= order.len(),
        exists|q: int| 0 <= q < n && !placed.contains(#[trigger] order[q]),
    ensures
        0 <= q < n,
        !placed.contains(order[q]),
        forall|q2: int| 0 <= q2 < n && !placed.contains(#[trigger] order[q2]) ==> rank(order[q] as int) <= rank(order[q2] as int),
    decreases n,
{
    if exists|q: int| 0 <= q < n - 1 && !placed.contains(#[trigger] order[q]) {
        let q0 = lemma_least_unplaced(order, placed, rank, n - 1);
        if !placed.contains(order[n - 1]) && rank(order[n - 1] as int) < rank(order[q0] as int) {
            n - 1
        } else {
            q0
        }
    } else {
        n - 1
    }
}

/// With a ranking, some rule of the category is ready whenever one is unplaced.
proof fn lemma_ranked_candidate(metas: Seq<RuleMetadata>, c: RuleCategory, rank: spec_fn(int) -> int, placed: Seq<usize>)
    requires
        metas.len() <= usize::MAX,
        distinct_ids(metas),
        all_dependencies_valid(metas),
        ranked(metas, c, rank),
        exists|q: int| 0 <= q < category_order(metas, c).len() && !placed.contains(#[trigger] category_order(metas, c)[q]),
    ensures
        exists|q: int| 0 <= q < category_order(metas, c).len() && #[trigger] is_candidate(metas, placed, category_order(metas, c)[q]),
{
    let order = category_order(metas, c);
    lemma_category_order(metas, c);
    lemma_category_order_complete(metas, c);
    let q = lemma_least_unplaced(order, placed, rank, order.len() as int);
    let u = order[q];
    assert forall|k: int| 0 <= k < deps(metas, u as int).len() implies position_of(metas, placed, #[trigger] deps(metas, u as int)[k].0@) >= 0 by {
        let d = deps(metas, u as int)[k].0@;
        assert(valid_dependency(metas, u as int, d));
        let j = choose|j: int| 0 <= j < metas.len() && #[trigger] rid(metas, j) == d && metas[j].category == metas[u as int].category;
        assert(rank(j) < rank(u as int));
        assert(order.contains(j as usize));
        let q2 = choose|q2: int| 0 <= q2 < order.len() && order[q2] == j as usize;
        if !placed.contains(j as usize) {
            assert(!placed.contains(order[q2]));
            assert(rank(order[q] as int) <= rank(order[q2] as int));
        }
        lemma_position_of_placed(metas, placed, j as usize, d);
    }
    assert(is_candidate(metas, placed, order[q]));
}

/// With a ranking, scheduling the category never gets stuck.
proof fn lemma_ranked_schedule_ok(metas: Seq<RuleMetadata>, c: RuleCategory, rank: spec_fn(int) -> int, placed: Seq<usize>, fuel: nat)
    requires
        metas.len() <= usize::MAX,
        distinct_ids(metas),
        all_dependencies_valid(metas),
        ranked(metas, c, rank),
    ensures
        schedule(metas, category_order(metas, c), placed, fuel) is Ok,
    decreases fuel,
{
    let order = category_order(metas, c);
    if fuel > 0 {
        lemma_pick(metas, order, placed, order.len() as int);
        match pick(metas, order, placed, order.len() as int) {
            Some(p) => lemma_ranked_schedule_ok(metas, c, rank, placed.push(order[p]), (fuel - 1) as nat),
            None => {
                lemma_first_unplaced_unplaced(order, placed, order.len() as int);
                lemma_first_unplaced_in(order, placed, order.len() as int);
                if first_unplaced(order, placed, order.len() as int) is Some {
                    let i = first_unplaced(order, placed, order.len() as int)->0;
                    let q = choose|q: int| 0 <= q < order.len() && order[q] == i;
                    assert(!placed.contains(order[q]));
                    lemma_ranked_candidate(metas, c, rank, placed);
                }
            },
        }
    }
}

/// A schedule that succeeds ranks the category: by position in it.
proof fn lemma_schedule_ok_ranked(metas: Seq<RuleMetadata>, c: RuleCategory)
    requires
        metas.len() <= usize::MAX,
        distinct_ids(metas),
        all_dependencies_valid(metas),
        schedule(metas, category_order(metas, c), seq![], category_order(metas, c).len()) is Ok,
    ensures
        acyclic_category(metas, c),
{
    let order = category_order(metas, c);
    lemma_category_order(metas, c);
    lemma_category_order_complete(metas, c);
    lemma_schedule_laws(metas, c);
    lemma_schedule_complete(metas, order, seq![], order.len());
    let empty = Seq::<usize>::empty();
    assert forall|t: int, q: int|
        0 <= t < empty.len() && 0 <= q < order.len() && #[trigger] is_candidate(metas, empty.take(t), order[q])
        implies metas[order[q] as int].priority <= metas[#[trigger] empty[t] as int].priority by {}
    lemma_schedule_sound(metas, order, empty, order.len());
    let o = schedule(metas, order, seq![], order.len())->Ok_0;
    let rank = |j: int| choose|t: int| 0 <= t < o.len() && o[t] == j as usize;
    assert forall|i: int, q: int, j: int|
        0 <= i < metas.len() && metas[i].category == c && 0 <= q < deps(metas, i).len() && 0 <= j < metas.len()
            && #[trigger] rid(metas, j) == #[trigger] deps(metas, i)[q].0@ implies rank(j) < rank(i) by {
        let d = deps(metas, i)[q].0@;
        assert(order.contains(i as usize));
        assert(o.contains(i as usize));
        let t = rank(i);
        assert(0 <= t < o.len() && o[t] == i as usize);
        assert(is_ready(metas, o.take(t), o[t] as int));
        assert(position_of(metas, o.take(t), d) >= 0);
        lemma_position_found(metas, o.take(t), d);
        let u = position_of(metas, o.take(t), d);
        assert(o.take(t)[u] == o[u]);
        let x = o[u] as int;
        assert(order.contains(o[u]));
        let w = choose|w: int| 0 <= w < order.len() && order[w] == o[u];
        assert(0 <= x < metas.len());
        assert(rid(metas, x) == rid(metas, j));
        if x != j {
            if x < j {
                assert(has_earlier_twin(metas, j));
            } else {
                assert(rid(metas, j) == rid(metas, x));
                assert(has_earlier_twin(metas, x));
            }
        }
        assert(valid_dependency(metas, i, d));
        assert(metas[j].category == c) by {
            let j2 = choose|j2: int| 0 <= j2 < metas.len() && #[trigger] rid(metas, j2) == d && metas[j2].category == metas[i].category;
            if j2 != j {
                if j2 < j {
                    assert(has_earlier_twin(metas, j));
                } else {
                    assert(rid(metas, j) == rid(metas, j2));
                    assert(has_earlier_twin(metas, j2));
                }
            }
        }
        assert(order.contains(j as usize));
        assert(o.contains(j as usize));
        let r = rank(j);
        assert(0 <= r < o.len() && o[r] == j as usize);
        assert(o[u] == j as usize);
        if r != u {
            assert(o.no_duplicates());
        }
    }
    assert(ranked(metas, c, rank));
}



/// Whether every rule of `s` depends on some rule of `s`: following
/// dependencies from any of them never leaves `s`, so, the rules being
/// finitely many, it runs into a cycle.
#[verifier::opaque]
pub open spec fn waits_within(metas: Seq<RuleMetadata>, s: Set<int>) -> bool {
    forall|x: int| #[trigger] s.contains(x) ==> 0 <= x < metas.len() && exists|q: int, j: int|
        0 <= q < deps(metas, x).len() && s.contains(j) && #[trigger] rid(metas, j) == #[trigger] deps(metas, x)[q].0@
}

/// Whether rule `i` lies on a dependency cycle or depends, directly or
/// through other rules, on one.
pub open spec fn blocked_by_cycle(metas: Seq<RuleMetadata>, i: int) -> bool {
    exists|s: Set<int>| s.contains(i) && #[trigger] waits_within(metas, s)
}

/// A rule that scheduling blames is blocked by a cycle: it and every other
/// rule left over wait on a rule left over.
proof fn lemma_schedule_stuck(metas: Seq<RuleMetadata>, c: RuleCategory, placed: Seq<usize>, fuel: nat)
    requires
        metas.len() <= usize::MAX,
        all_dependencies_valid(metas),
    ensures
        schedule(metas, category_order(metas, c), placed, fuel) matches Err(i) ==> blocked_by_cycle(metas, i as int),
    decreases fuel,
{
    let order = category_order(metas, c);
    if fuel > 0 {
        lemma_pick(metas, order, placed, order.len() as int);
        match pick(metas, order, placed, order.len() as int) {
            Some(p) => lemma_schedule_stuck(metas, c, placed.push(order[p]), (fuel - 1) as nat),
            None => {
                lemma_first_unplaced_unplaced(order, placed, order.len() as int);
                lemma_first_unplaced_in(order, placed, order.len() as int);
                if first_unplaced(order, placed, order.len() as int) is Some {
                    let i = first_unplaced(order, placed, order.len() as int)->0;
                    lemma_category_order(metas, c);
                    lemma_category_order_complete(metas, c);
                    let s = Set::new(|x: int| order.contains(x as usize) && 0 <= x < metas.len() && !placed.contains(x as usize));
                    assert forall|x: int| #[trigger] s.contains(x) implies 0 <= x < metas.len() && exists|q: int, j: int|
                        0 <= q < deps(metas, x).len() && s.contains(j) && #[trigger] rid(metas, j) == #[trigger] deps(metas, x)[q].0@ by {
                        let w = choose|w: int| 0 <= w < order.len() && order[w] == x as usize;
                        assert(!is_candidate(metas, placed, order[w]));
                        assert(!is_ready(metas, placed, x));
                        let k = choose|k: int| 0 <= k < deps(metas, x).len() && !(position_of(metas, placed, #[trigger] deps(metas, x)[k].0@) >= 0);
                        let d = deps(metas, x)[k].0@;
                        assert(valid_dependency(metas, x, d));
                        let j = choose|j: int| 0 <= j < metas.len() && #[trigger] rid(metas, j) == d && metas[j].category == metas[x].category;
                        assert(metas[x].category == c);
                        assert(order.contains(j as usize));
                        if placed.contains(j as usize) {
                            lemma_position_of_placed(metas, placed, j as usize, d);
                        }
                        assert(s.contains(j));
                    }
                    let t = choose|t: int| 0 <= t < order.len() && order[t] == i;
                    assert(s.contains(i as int));
                    assert(waits_within(metas, s)) by {
                        reveal(waits_within);
                    }
                }
            },
        }
    }
}

/// The first `m` passes plan exactly when each of their categories is
/// acyclic; otherwise the first cyclic one is blamed, through one of its rules.
proof fn lemma_plan_passes_cycles(metas: Seq<RuleMetadata>, passes: Seq<RuleCategory>, m: int)
    requires
        metas.len() <= usize::MAX,
        distinct_ids(metas),
        all_dependencies_valid(metas),
        0 <= m <= passes.len(),
    ensures
        plan_passes(metas, passes, m) is Ok <==> forall|m2: int| 0 <= m2 < m ==> #[trigger] acyclic_category(metas, passes[m2]),
        plan_passes(metas, passes, m) matches Err(f) ==> exists|mm: int, i: int|
            #![trigger metas[i], passes[mm]]
            0 <= mm < m && !acyclic_category(metas, passes[mm])
                && (forall|m2: int| 0 <= m2 < mm ==> #[trigger] acyclic_category(metas, passes[m2]))
                && 0 <= i < metas.len() && metas[i].category == passes[mm] && blocked_by_cycle(metas, i)
                && f == (3nat, rid(metas, i), Seq::<char>::empty()),
    decreases m,
{
    if m > 0 {
        lemma_plan_passes_cycles(metas, passes, m - 1);
        match plan_passes(metas, passes, m - 1) {
            Err(f) => {
                let (mm, i) = choose|mm: int, i: int|
                    #![trigger metas[i], passes[mm]]
                    0 <= mm < m - 1 && !acyclic_category(metas, passes[mm])
                        && (forall|m2: int| 0 <= m2 < mm ==> #[trigger] acyclic_category(metas, passes[m2]))
                        && 0 <= i < metas.len() && metas[i].category == passes[mm] && blocked_by_cycle(metas, i)
                        && f == (3nat, rid(metas, i), Seq::<char>::empty());
                assert(!acyclic_category(metas, passes[mm]));
            },
            Ok(acc) => {
                let c = passes[m - 1];
                let order = category_order(metas, c);
                if passes.take(m - 1).contains(c) {
                    let k = choose|k: int| 0 <= k < m - 1 && #[trigger] passes.take(m - 1)[k] == c;
                    assert(passes[k] == c);
                    assert(acyclic_category(metas, passes[k]));
                    assert forall|m2: int| 0 <= m2 < m implies #[trigger] acyclic_category(metas, passes[m2]) by {
                        if m2 < m - 1 {
                        } else {
                            assert(passes[m2] == passes[k]);
                        }
                    }
                } else {
                    match schedule(metas, order, seq![], order.len()) {
                        Ok(o) => {
                            lemma_schedule_ok_ranked(metas, c);
                            assert forall|m2: int| 0 <= m2 < m implies #[trigger] acyclic_category(metas, passes[m2]) by {
                                if m2 < m - 1 {
                                }
                            }
                        },
                        Err(i) => {
                            if acyclic_category(metas, c) {
                                let rank = choose|rank: spec_fn(int) -> int| #[trigger] ranked(metas, c, rank);
                                lemma_ranked_schedule_ok(metas, c, rank, seq![], order.len());
                            }
                            lemma_schedule_blame(metas, order, seq![], order.len());
                            lemma_schedule_stuck(metas, c, seq![], order.len());
                            lemma_category_order(metas, c);
                            let t = choose|t: int| 0 <= t < order.len() && order[t] == i;
                            assert(metas[i as int].category == passes[m - 1]);
                            assert(!acyclic_category(metas, passes[m - 1]));
                        },
                    }
                }
            },
        }
    }
}

/// With distinct ids and every dependency naming another rule of the same
/// category, the plan succeeds exactly when the dependencies within each
/// category that the passes name have no cycle. When it fails, it fails on
/// the first such category (in the order of the passes) whose dependencies
/// have a cycle, naming a rule of that category that lies on a cycle or
/// depends, directly or through other rules, on one.
pub proof fn lemma_plan_cycles(metas: Seq<RuleMetadata>, passes: Seq<RuleCategory>)
    requires
        metas.len() <= usize::MAX,
        distinct_ids(metas),
        all_dependencies_valid(metas),
    ensures
        spec_plan(metas, passes) is Ok <==> forall|m: int| 0 <= m < passes.len() ==> #[trigger] acyclic_category(metas, passes[m]),
        spec_plan(metas, passes) matches Err(f) ==> exists|mm: int, i: int|
            #![trigger metas[i], passes[mm]]
            0 <= mm < passes.len() && !acyclic_category(metas, passes[mm])
                && (forall|m2: int| 0 <= m2 < mm ==> #[trigger] acyclic_category(metas, passes[m2]))
                && 0 <= i < metas.len() && metas[i].category == passes[mm] && blocked_by_cycle(metas, i)
                && f == (3nat, rid(metas, i), Seq::<char>::empty()),
{
    lemma_first_duplicate(metas, metas.len() as int);
    lemma_rules_failure_first(metas, metas.len() as int);
    assert forall|i: int| 0 <= i < metas.len() implies #[trigger] deps_valid_upto(metas, i, deps(metas, i).len() as int) by {}
    lemma_plan_passes_cycles(metas, passes, passes.len() as int);
}

} // verus!
