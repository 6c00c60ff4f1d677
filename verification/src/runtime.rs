//! The listening engine's decisions: when to listen, and when an utterance is over.
use vstd::prelude::*;

use std::sync::mpsc::{Receiver, Sender};

use crate::events::VoiceFlowEvent;

verus! {

#[verifier::external_type_specification]
#[verifier::external_body]
#[verifier::reject_recursive_types(T)]
pub struct ExSender<T>(Sender<T>);

#[verifier::external_type_specification]
#[verifier::external_body]
#[verifier::reject_recursive_types(T)]
pub struct ExReceiver<T>(Receiver<T>);

/// `std::sync::mpsc::channel` (std): a new channel's two ends. Nothing is
/// claimed of them beyond their types.
#[verifier::external_body]
fn open_channel() -> (r: (Sender<VoiceFlowEvent>, Receiver<VoiceFlowEvent>)) {
    std::sync::mpsc::channel()
}

/// `Sender::clone` (std): another handle on the same channel. Nothing is claimed of it.
#[verifier::external_body]
fn clone_sender(s: &Sender<VoiceFlowEvent>) -> (r: Sender<VoiceFlowEvent>) {
    s.clone()
}

/// `Sender::send` (std): hands `event` to the channel; the outcome (whether a
/// receiver is still there) is dropped. Nothing is claimed of the channel.
#[verifier::external_body]
fn send_event(s: &Sender<VoiceFlowEvent>, event: VoiceFlowEvent) {
    let _ = s.send(event);
}

/// The device the engine runs on.
#[derive(Debug, Clone, Copy)]
pub enum RuntimeProfile {
    DesktopMac,
    DesktopWindows,
    MobileIos,
    MobileAndroid,
}

/// The listening engine: whether it listens, where its events go, and which
/// events it has sent there.
pub struct VoiceFlow {
    event_sender: Option<Sender<VoiceFlowEvent>>,
    listening: bool,
    sent: Ghost<Seq<VoiceFlowEvent>>,
}

impl VoiceFlow {
    /// Whether the engine listens.
    pub closed spec fn spec_listening(&self) -> bool {
        self.listening
    }

    /// Whether a subscriber receives the engine's events.
    pub closed spec fn spec_subscribed(&self) -> bool {
        self.event_sender is Some
    }

    /// The events the engine has sent to its current subscriber, in order.
    pub closed spec fn spec_sent(&self) -> Seq<VoiceFlowEvent> {
        self.sent@
    }

    pub fn new(_profile: RuntimeProfile) -> (v: Self)
        ensures
            !v.spec_listening(),
            !v.spec_subscribed(),
            v.spec_sent() == Seq::<VoiceFlowEvent>::empty(),
    {
        Self { event_sender: None, listening: false, sent: Ghost(Seq::empty()) }
    }

    /// Sends `event` to the subscriber, when there is one.
    fn emit(&mut self, event: VoiceFlowEvent)
        ensures
            final(self).spec_sent() == (if old(self).spec_subscribed() {
                old(self).spec_sent().push(event)
            } else {
                old(self).spec_sent()
            }),
            final(self).spec_listening() == old(self).spec_listening(),
            final(self).spec_subscribed() == old(self).spec_subscribed(),
    {
        match &self.event_sender {
            Some(sender) => {
                proof {
                    self.sent@ = self.sent@.push(event);
                }
                send_event(sender, event);
            },
            None => {},
        }
    }

    /// Opens a new event channel and keeps its sending end; the receiving
    /// end goes to the caller (an earlier subscriber hears no more).
    pub fn subscribe(&mut self) -> (r: Receiver<VoiceFlowEvent>)
        ensures
            final(self).spec_subscribed(),
            final(self).spec_listening() == old(self).spec_listening(),
            final(self).spec_sent() == Seq::<VoiceFlowEvent>::empty(),
    {
        let (tx, rx) = open_channel();
        self.event_sender = Some(tx);
        self.sent = Ghost(Seq::empty());
        rx
    }

    /// Starts listening when the engine is not already listening, and tells
    /// the subscriber at once (`ListeningStarted`). When a subscriber is
    /// there, gives the sender the listening worker reports on; the worker is
    /// then to be started. Without a subscriber the engine counts as
    /// listening but no worker starts.
    pub fn start_listening(&mut self) -> (worker: Option<Sender<VoiceFlowEvent>>)
        ensures
            final(self).spec_listening(),
            final(self).spec_subscribed() == old(self).spec_subscribed(),
            worker is Some <==> (!old(self).spec_listening() && old(self).spec_subscribed()),
            final(self).spec_sent() == (if !old(self).spec_listening() && old(self).spec_subscribed() {
                old(self).spec_sent().push(VoiceFlowEvent::ListeningStarted)
            } else {
                old(self).spec_sent()
            }),
    {
        if self.listening {
            return None;
        }
        self.listening = true;
        self.emit(VoiceFlowEvent::ListeningStarted);
        match &self.event_sender {
            Some(sender) => Some(clone_sender(sender)),
            None => None,
        }
    }

    /// Stops listening and tells the subscriber (`ListeningStopped`); a
    /// running worker sees it and ends. Does nothing when not listening.
    pub fn stop_listening(&mut self)
        ensures
            !final(self).spec_listening(),
            final(self).spec_subscribed() == old(self).spec_subscribed(),
            final(self).spec_sent() == (if old(self).spec_listening() && old(self).spec_subscribed() {
                old(self).spec_sent().push(VoiceFlowEvent::ListeningStopped)
            } else {
                old(self).spec_sent()
            }),
    {
        if !self.listening {
            return;
        }
        self.listening = false;
        self.emit(VoiceFlowEvent::ListeningStopped);
    }

    /// Records that the worker ended on its own; when the engine was still
    /// listening, it stops and tells the subscriber (`ListeningStopped`).
    pub fn worker_stopped(&mut self)
        ensures
            !final(self).spec_listening(),
            final(self).spec_subscribed() == old(self).spec_subscribed(),
            final(self).spec_sent() == (if old(self).spec_listening() && old(self).spec_subscribed() {
                old(self).spec_sent().push(VoiceFlowEvent::ListeningStopped)
            } else {
                old(self).spec_sent()
            }),
    {
        self.stop_listening();
    }

    /// Passes a partial transcript to the subscriber, unless it is empty.
    pub fn report_partial(&mut self, text: String)
        ensures
            final(self).spec_listening() == old(self).spec_listening(),
            final(self).spec_subscribed() == old(self).spec_subscribed(),
            final(self).spec_sent() == (if text@.len() > 0 && old(self).spec_subscribed() {
                old(self).spec_sent().push(VoiceFlowEvent::PartialTranscript(text))
            } else {
                old(self).spec_sent()
            }),
    {
        if text.as_str().unicode_len() > 0 {
            self.emit(VoiceFlowEvent::PartialTranscript(text));
        }
    }

    /// The utterance is over: passes the final transcript to the subscriber
    /// (unless it is empty), then stops listening as `worker_stopped` does.
    pub fn finish_utterance(&mut self, final_text: String)
        ensures
            !final(self).spec_listening(),
            final(self).spec_subscribed() == old(self).spec_subscribed(),
            final(self).spec_sent() == {
                let s1 = if final_text@.len() > 0 && old(self).spec_subscribed() {
                    old(self).spec_sent().push(VoiceFlowEvent::FinalTranscript(final_text))
                } else {
                    old(self).spec_sent()
                };
                if old(self).spec_listening() && old(self).spec_subscribed() {
                    s1.push(VoiceFlowEvent::ListeningStopped)
                } else {
                    s1
                }
            },
    {
        if final_text.as_str().unicode_len() > 0 {
            self.emit(VoiceFlowEvent::FinalTranscript(final_text));
        }
        self.worker_stopped();
    }

    /// The worker failed: passes the error to the subscriber, then stops
    /// listening as `worker_stopped` does.
    pub fn fail(&mut self, message: String)
        ensures
            !final(self).spec_listening(),
            final(self).spec_subscribed() == old(self).spec_subscribed(),
            final(self).spec_sent() == {
                let s1 = if old(self).spec_subscribed() {
                    old(self).spec_sent().push(VoiceFlowEvent::Error(message))
                } else {
                    old(self).spec_sent()
                };
                if old(self).spec_listening() && old(self).spec_subscribed() {
                    s1.push(VoiceFlowEvent::ListeningStopped)
                } else {
                    s1
                }
            },
    {
        self.emit(VoiceFlowEvent::Error(message));
        self.worker_stopped();
    }

    pub fn is_listening(&self) -> (r: bool)
        ensures
            r == self.spec_listening(),
    {
        self.listening
    }
}

/// How long silence after speech ends an utterance, in milliseconds.
pub const SILENCE_THRESHOLD_MS: u64 = 1500;

/// How often a partial transcript is asked for, in milliseconds.
pub const PARTIAL_INTERVAL_MS: u64 = 300;

/// What the listening loop knows between two rounds.
#[derive(Debug, Clone, Copy)]
pub struct ListenState {
    /// Whether speech has been heard.
    pub has_spoken: bool,
    /// When the current silence after speech began.
    pub silence_start_ms: Option<u64>,
    /// When a partial transcript was last asked for.
    pub last_partial_ms: u64,
}

/// What the loop does after a round.
#[derive(Debug, Clone, Copy, PartialEq, Eq, Structural)]
pub enum ListenAction {
    /// Stop: listening was turned off.
    Stop,
    /// Go on; ask for a partial transcript first when `poll_partial` holds.
    Continue { poll_partial: bool },
    /// The utterance is over: emit the final transcript and stop listening.
    Finalize,
}

/// `b - a`, or 0 when `b` is before `a`.
pub open spec fn elapsed(a: u64, b: u64) -> int {
    if b >= a {
        b - a
    } else {
        0
    }
}

/// The state after a chunk: speech clears any silence; silence after speech
/// starts one (if none has started yet); an empty chunk changes nothing.
pub open spec fn after_chunk(s: ListenState, speech: Option<bool>, now_ms: u64) -> ListenState {
    match speech {
        None => s,
        Some(true) => ListenState { has_spoken: true, silence_start_ms: None, ..s },
        Some(false) => if s.has_spoken && s.silence_start_ms is None {
            ListenState { silence_start_ms: Some(now_ms), ..s }
        } else {
            s
        },
    }
}

/// One round of the listening loop: `listening` is the engine's flag,
/// `speech` whether the chunk read was speech (`None` for an empty chunk),
/// and `now_ms` the time. A partial transcript is due more than 300 ms after
/// the last; the utterance is over more than 1500 ms into a silence.
pub open spec fn spec_listen_step(s: ListenState, listening: bool, speech: Option<bool>, now_ms: u64) -> (ListenState, ListenAction) {
    if !listening {
        (s, ListenAction::Stop)
    } else {
        let c = after_chunk(s, speech, now_ms);
        let poll = elapsed(c.last_partial_ms, now_ms) > PARTIAL_INTERVAL_MS;
        let p = if poll { ListenState { last_partial_ms: now_ms, ..c } } else { c };
        match p.silence_start_ms {
            Some(start) => if elapsed(start, now_ms) > SILENCE_THRESHOLD_MS {
                (p, ListenAction::Finalize)
            } else {
                (p, ListenAction::Continue { poll_partial: poll })
            },
            None => (p, ListenAction::Continue { poll_partial: poll }),
        }
    }
}

impl ListenState {
    /// The state the loop starts in at `now_ms`.
    pub fn new(now_ms: u64) -> (s: Self)
        ensures
            !s.has_spoken,
            s.silence_start_ms is None,
            s.last_partial_ms == now_ms,
    {
        Self { has_spoken: false, silence_start_ms: None, last_partial_ms: now_ms }
    }
}

/// Exec form of `elapsed`.
fn elapsed_ms(a: u64, b: u64) -> (r: u64)
    ensures
        r == elapsed(a, b),
{
    if b >= a {
        b - a
    } else {
        0
    }
}

/// Decides one round of the listening loop.
pub fn listen_step(s: ListenState, listening: bool, speech: Option<bool>, now_ms: u64) -> (r: (ListenState, ListenAction))
    ensures
        r == spec_listen_step(s, listening, speech, now_ms),
{
    if !listening {
        return (s, ListenAction::Stop);
    }
    let mut c = s;
    match speech {
        None => {},
        Some(true) => {
            c.has_spoken = true;
            c.silence_start_ms = None;
        },
        Some(false) => {
            if c.has_spoken && c.silence_start_ms.is_none() {
                c.silence_start_ms = Some(now_ms);
            }
        },
    }
    let poll = elapsed_ms(c.last_partial_ms, now_ms) > PARTIAL_INTERVAL_MS;
    if poll {
        c.last_partial_ms = now_ms;
    }
    match c.silence_start_ms {
        Some(start) => {
            if elapsed_ms(start, now_ms) > SILENCE_THRESHOLD_MS {
                (c, ListenAction::Finalize)
            } else {
                (c, ListenAction::Continue { poll_partial: poll })
            }
        },
        None => (c, ListenAction::Continue { poll_partial: poll }),
    }
}

/// Speech always keeps the loop going: a round that hears speech never ends the utterance.
pub proof fn lemma_speech_keeps_listening(s: ListenState, now_ms: u64)
    ensures
        spec_listen_step(s, true, Some(true), now_ms).1 != ListenAction::Finalize,
        spec_listen_step(s, true, Some(true), now_ms).1 != ListenAction::Stop,
{
}

/// Nothing ends an utterance before speech is heard.
pub proof fn lemma_no_finalize_before_speech(s: ListenState, speech: Option<bool>, now_ms: u64)
    requires
        !s.has_spoken,
        s.silence_start_ms is None,
        speech != Some(true),
    ensures
        spec_listen_step(s, true, speech, now_ms).1 != ListenAction::Finalize,
{
}

/// A pause ends the utterance: once a silence after speech has lasted more
/// than the threshold, a listening round that hears no speech finalizes.
pub proof fn lemma_long_silence_finalizes(s: ListenState, speech: Option<bool>, now_ms: u64)
    requires
        s.silence_start_ms matches Some(start) && now_ms >= start && now_ms - start > SILENCE_THRESHOLD_MS,
        speech != Some(true),
    ensures
        spec_listen_step(s, true, speech, now_ms).1 == ListenAction::Finalize,
{
}

/// Turning listening off stops the loop at its next round, whatever it hears.
pub proof fn lemma_stop_ends_loop(s: ListenState, speech: Option<bool>, now_ms: u64)
    ensures
        spec_listen_step(s, false, speech, now_ms) == (s, ListenAction::Stop),
{
}

} // verus!
