//! Events that the formatting pipeline reports, and observers that collect them.
use vstd::prelude::*;

use super::changes::ChangeId;

verus! {

/// Something that happened while transforming a text.
#[derive(Debug)]
pub enum PipelineEvent {
    TransformationStarted,
    TransformationFinished,
    WindowBuilt,
    WindowExpanded,
    Classification,
    RuleStarted { rule: String },
    RuleSkipped { rule: String },
    RuleFinished { rule: String, duration_micros: u64 },
    ValidationStarted,
    ValidationFinished,
    MergeStarted,
    MergeFinished,
    RegionProtected { start: usize, end: usize },
    RegionLocked { start: usize, end: usize },
    ChangeEmitted { change_id: ChangeId },
    ChangeApplied { change_id: ChangeId },
}

impl Clone for PipelineEvent {
    fn clone(&self) -> (r: Self)
        ensures
            r == *self,
    {
        match self {
            PipelineEvent::TransformationStarted => PipelineEvent::TransformationStarted,
            PipelineEvent::TransformationFinished => PipelineEvent::TransformationFinished,
            PipelineEvent::WindowBuilt => PipelineEvent::WindowBuilt,
            PipelineEvent::WindowExpanded => PipelineEvent::WindowExpanded,
            PipelineEvent::Classification => PipelineEvent::Classification,
            PipelineEvent::RuleStarted { rule } => PipelineEvent::RuleStarted { rule: rule.clone() },
            PipelineEvent::RuleSkipped { rule } => PipelineEvent::RuleSkipped { rule: rule.clone() },
            PipelineEvent::RuleFinished { rule, duration_micros } => PipelineEvent::RuleFinished {
                rule: rule.clone(),
                duration_micros: *duration_micros,
            },
            PipelineEvent::ValidationStarted => PipelineEvent::ValidationStarted,
            PipelineEvent::ValidationFinished => PipelineEvent::ValidationFinished,
            PipelineEvent::MergeStarted => PipelineEvent::MergeStarted,
            PipelineEvent::MergeFinished => PipelineEvent::MergeFinished,
            PipelineEvent::RegionProtected { start, end } => PipelineEvent::RegionProtected {
                start: *start,
                end: *end,
            },
            PipelineEvent::RegionLocked { start, end } => PipelineEvent::RegionLocked { start: *start, end: *end },
            PipelineEvent::ChangeEmitted { change_id } => PipelineEvent::ChangeEmitted { change_id: *change_id },
            PipelineEvent::ChangeApplied { change_id } => PipelineEvent::ChangeApplied { change_id: *change_id },
        }
    }
}

/// Receives the events of the pipeline.
pub trait EventObserver {
    /// Whether the observer keeps the promise of `on_event`. The observers of
    /// this library do; an observer that does not say so promises nothing.
    open spec fn obeys_observer_spec(&self) -> bool {
        false
    }

    /// The events the observer has been handed, in order (unknown unless the
    /// observer says).
    open spec fn seen(&self) -> Seq<PipelineEvent> {
        arbitrary()
    }

    /// Takes in one more event.
    fn on_event(&mut self, event: &PipelineEvent)
        ensures
            old(self).obeys_observer_spec() ==> final(self).obeys_observer_spec()
                && final(self).seen() == old(self).seen().push(*event),
    ;
}

/// Hands each event to every registered observer, in registration order.
pub struct EventBus {
    observers: Vec<Box<dyn EventObserver>>,
}

/// Hands `event` to each observer of `v` in turn, keeping them in place.
fn notify_all<T: EventObserver + ?Sized>(v: &mut Vec<Box<T>>, event: &PipelineEvent)
    ensures
        final(v)@.len() == old(v)@.len(),
        forall|i: int| 0 <= i < old(v)@.len() && old(v)@[i].obeys_observer_spec() ==> #[trigger] final(v)@[i].obeys_observer_spec()
            && final(v)@[i].seen() == old(v)@[i].seen().push(*event),
{
    let n = v.len();
    let mut i: usize = 0;
    while i < n
        invariant
            n == v@.len(),
            n == old(v)@.len(),
            i <= n,
            forall|j: int| 0 <= j < i && old(v)@[j].obeys_observer_spec() ==> #[trigger] v@[j].obeys_observer_spec()
                && v@[j].seen() == old(v)@[j].seen().push(*event),
            forall|j: int| i <= j < n ==> #[trigger] v@[j] == old(v)@[j],
        decreases n - i,
    {
        let ghost before = v@;
        let mut x = v.remove(i);
        x.on_event(event);
        v.insert(i, x);
        proof {
            assert forall|j: int| 0 <= j < n && j != i implies #[trigger] v@[j] == before[j] by {
                if j < i {
                    assert(v@[j] == before.remove(i as int)[j]);
                } else {
                    assert(v@[j] == before.remove(i as int)[j - 1]);
                }
            }
        }
        i = i + 1;
    }
}

/// Appends observer `x` to `v`; the observers already there stay as they were.
fn append_observer<T: EventObserver + ?Sized>(v: &mut Vec<Box<T>>, x: Box<T>)
    ensures
        final(v)@.len() == old(v)@.len() + 1,
        forall|i: int| 0 <= i < old(v)@.len() ==> #[trigger] final(v)@[i].seen() == old(v)@[i].seen(),
        final(v)@ == old(v)@.push(x),
{
    let ghost before = v@;
    v.push(x);
    proof {
        assert forall|i: int| 0 <= i < before.len() implies #[trigger] v@[i].seen() == before[i].seen() by {
            assert(v@[i] == before[i]);
        }
    }
}

impl EventBus {
    /// The number of registered observers.
    pub closed spec fn observer_count(&self) -> nat {
        self.observers@.len()
    }

    /// The registered observers, in registration order.
    pub closed spec fn observers(&self) -> Seq<Box<dyn EventObserver>> {
        self.observers@
    }

    /// What each registered observer has seen, in registration order.
    pub closed spec fn observer_logs(&self) -> Seq<Seq<PipelineEvent>> {
        Seq::new(self.observers@.len(), |i: int| self.observers@[i].seen())
    }

    pub fn new() -> (b: Self)
        ensures
            b.observer_count() == 0,
    {
        Self { observers: Vec::new() }
    }

    /// Registers `observer` after the ones already registered, which keep
    /// what they have seen.
    pub fn add_observer(&mut self, observer: Box<dyn EventObserver>)
        ensures
            final(self).observers() == old(self).observers().push(observer),
            final(self).observer_count() == old(self).observer_count() + 1,
            forall|i: int| 0 <= i < old(self).observer_count()
                ==> #[trigger] final(self).observer_logs()[i] == old(self).observer_logs()[i],
    {
        let ghost before = self.observer_logs();
        append_observer(&mut self.observers, observer);
        proof {
            assert forall|i: int| 0 <= i < before.len() implies #[trigger] self.observer_logs()[i] == before[i] by {
                assert(self.observers@[i].seen() == old(self).observers@[i].seen());
            }
        }
    }

    /// Hands `event` to each observer in turn; the observers stay registered,
    /// and each that keeps its promise has seen the event last.
    pub fn dispatch(&mut self, event: &PipelineEvent)
        ensures
            final(self).observer_count() == old(self).observer_count(),
            final(self).observer_logs().len() == old(self).observer_logs().len(),
            forall|i: int| 0 <= i < old(self).observer_logs().len() && old(self).observers()[i].obeys_observer_spec()
                ==> #[trigger] final(self).observer_logs()[i] == old(self).observer_logs()[i].push(*event)
                && final(self).observers()[i].obeys_observer_spec(),
    {
        let ghost before = self.observers@;
        notify_all(&mut self.observers, event);
        proof {
            assert forall|i: int| 0 <= i < before.len() && before[i].obeys_observer_spec()
                implies #[trigger] self.observer_logs()[i] == old(self).observer_logs()[i].push(*event)
                && self.observers()[i].obeys_observer_spec() by {
                assert(self.observers@[i].obeys_observer_spec());
            }
        }
    }
}

impl Default for EventBus {
    fn default() -> (b: Self)
        ensures
            b.observer_count() == 0,
    {
        Self::new()
    }
}

/// Counts rule runs, skips and emitted changes.
pub struct MetricsCollector {
    pub rules_executed: u64,
    pub rules_skipped: u64,
    pub changes_emitted: u64,
    /// The events counted so far (kept for proofs only).
    pub seen: Ghost<Seq<PipelineEvent>>,
}

impl MetricsCollector {
    pub fn new() -> (m: Self)
        ensures
            m.rules_executed == 0,
            m.rules_skipped == 0,
            m.changes_emitted == 0,
    {
        Self { rules_executed: 0, rules_skipped: 0, changes_emitted: 0, seen: Ghost(Seq::empty()) }
    }
}

impl Default for MetricsCollector {
    fn default() -> (m: Self)
        ensures
            m.rules_executed == 0,
            m.rules_skipped == 0,
            m.changes_emitted == 0,
    {
        Self::new()
    }
}

/// `n + 1`, wrapping at the top of the range.
pub open spec fn bump(n: u64) -> u64 {
    if n == u64::MAX {
        0
    } else {
        (n + 1) as u64
    }
}

impl EventObserver for MetricsCollector {
    open spec fn obeys_observer_spec(&self) -> bool {
        true
    }

    open spec fn seen(&self) -> Seq<PipelineEvent> {
        self.seen@
    }

    /// Counts a started rule as executed, a skipped rule as skipped, and an
    /// emitted change; other events leave the counts as they are.
    fn on_event(&mut self, event: &PipelineEvent)
        ensures
            final(self).rules_executed == (if event is RuleStarted {
                bump(old(self).rules_executed)
            } else {
                old(self).rules_executed
            }),
            final(self).rules_skipped == (if event is RuleSkipped {
                bump(old(self).rules_skipped)
            } else {
                old(self).rules_skipped
            }),
            final(self).changes_emitted == (if event is ChangeEmitted {
                bump(old(self).changes_emitted)
            } else {
                old(self).changes_emitted
            }),
    {
        match event {
            PipelineEvent::RuleStarted { .. } => {
                self.rules_executed = self.rules_executed.wrapping_add(1);
            },
            PipelineEvent::RuleSkipped { .. } => {
                self.rules_skipped = self.rules_skipped.wrapping_add(1);
            },
            PipelineEvent::ChangeEmitted { .. } => {
                self.changes_emitted = self.changes_emitted.wrapping_add(1);
            },
            _ => {},
        }
        proof {
            self.seen@ = self.seen@.push(*event);
        }
    }
}

/// Keeps every event it sees, in order.
#[derive(Debug)]
pub struct DiagnosticsCollector {
    pub events: Vec<PipelineEvent>,
}

impl DiagnosticsCollector {
    pub fn new() -> (d: Self)
        ensures
            d.events@.len() == 0,
    {
        Self { events: Vec::new() }
    }
}

impl Default for DiagnosticsCollector {
    fn default() -> (d: Self)
        ensures
            d.events@.len() == 0,
    {
        Self::new()
    }
}

impl EventObserver for DiagnosticsCollector {
    open spec fn obeys_observer_spec(&self) -> bool {
        true
    }

    open spec fn seen(&self) -> Seq<PipelineEvent> {
        self.events@
    }

    fn on_event(&mut self, event: &PipelineEvent)
        ensures
            final(self).events@ == old(self).events@.push(*event),
    {
        self.events.push(event.clone());
    }
}

} // verus!
