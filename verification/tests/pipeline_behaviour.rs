use voiceflow_core::llm::prompts::build_system_prompt;
use voiceflow_core::llm::provider::LlamaProvider;
use voiceflow_core::llm::rewrite::rewrite;
use voiceflow_core::llm::runtime::LlmRuntime;
use voiceflow_core::llm::safety::strip_filler;
use voiceflow_core::pipeline::intent::{IntentDetector, UserIntent};
use voiceflow_core::pipeline::models::{TransformationMetrics, TransformationResult, TransformationState};
use voiceflow_core::pipeline::changes::ChangeSet;
use voiceflow_core::pipeline::observability::{DiagnosticsCollector, EventBus, EventObserver, MetricsCollector, PipelineEvent};
use voiceflow_core::pipeline::request::{FormattingMode, ProcessingOptions, RewriteMode};
use voiceflow_core::profile::{DesktopProfile, MobileProfile, RuntimeProfile};
use voiceflow_core::runtime::{listen_step, ListenAction, ListenState, RuntimeProfile as Device, VoiceFlow};
use voiceflow_core::VoiceFlowProcessor;

#[test]
fn intents() {
    assert_eq!(IntentDetector::detect("hi"), UserIntent::Dictation);
    assert_eq!(IntentDetector::detect("Rewrite this paragraph"), UserIntent::Rewrite);
    assert_eq!(IntentDetector::detect("please summarize this for me"), UserIntent::Summarize);
    assert_eq!(IntentDetector::detect("translate to French"), UserIntent::Translate);
    assert_eq!(IntentDetector::detect("can you fix grammar here"), UserIntent::CorrectGrammar);
    assert_eq!(IntentDetector::detect("just a normal sentence"), UserIntent::Dictation);
}

#[test]
fn prompts() {
    let p = build_system_prompt(UserIntent::Summarize, RewriteMode::Off);
    assert!(p.starts_with("You are VoiceFlow, an AI dictation assistant.\n"));
    assert!(p.ends_with("Summarize the following text concisely.\n"));
    let off = build_system_prompt(UserIntent::Rewrite, RewriteMode::Off);
    assert!(off.ends_with("Do not add explanations or conversational filler.\n"));
}

#[test]
fn strip_filler_removes_lead_ins_and_quotes() {
    assert_eq!(strip_filler("  Sure! Here is the rewritten text: \"Hello there.\"  "), "Hello there.");
    assert_eq!(strip_filler("HERE YOU GO: done"), "done");
    assert_eq!(strip_filler("plain"), "plain");
}

#[test]
fn rewrite_and_runtime() {
    let profile = DesktopProfile::default();
    assert_eq!(rewrite("keep me", UserIntent::Dictation, RewriteMode::Standard, &profile), "keep me");
    assert_eq!(rewrite("\"quoted\"", UserIntent::Rewrite, RewriteMode::Light, &profile), "quoted");
    assert_eq!(LlmRuntime::new().run_inference("t", "s", &profile), "t");
    assert_eq!(LlamaProvider::new().generate("p", "s", 5, "out"), "out");
}

#[test]
fn profiles() {
    let d = DesktopProfile::default();
    assert_eq!(d.stt_model(), "faster-whisper-small");
    assert_eq!(d.rewrite_limit_tokens(), 500);
    let m = MobileProfile::default();
    assert_eq!(m.llm_model(), "qwen3-1.7b");
    assert_eq!(m.target_latency_ms(), 100);
    assert_eq!(m.max_context_tokens(), 2048);
}

#[test]
fn processor_formats_and_only_rewrites_when_asked() {
    let processor = VoiceFlowProcessor::new(MobileProfile::default());
    let options = ProcessingOptions::default();
    let r = processor.process("hello comma world", options);
    assert_eq!(r.raw_text, "hello comma world");
    assert_eq!(r.formatted_text, "Hello, world");
    assert_eq!(r.final_text, "Hello, world");
    assert!(!r.used_llm);
    let mut on = ProcessingOptions::default();
    on.llm_enabled = true;
    on.rewrite_mode = RewriteMode::Light;
    on.formatting_mode = FormattingMode::Smart;
    let r2 = processor.process("rewrite this comma please", on);
    assert_eq!(r2.intent, UserIntent::Rewrite);
    assert!(r2.used_llm);
    assert_eq!(r2.final_text, "Rewrite this, please");
}

#[test]
fn observers_count_and_keep_events() {
    let mut metrics = MetricsCollector::new();
    metrics.on_event(&PipelineEvent::RuleStarted { rule: "a".to_string() });
    metrics.on_event(&PipelineEvent::RuleSkipped { rule: "b".to_string() });
    metrics.on_event(&PipelineEvent::ChangeEmitted { change_id: 1 });
    metrics.on_event(&PipelineEvent::MergeStarted);
    assert_eq!((metrics.rules_executed, metrics.rules_skipped, metrics.changes_emitted), (1, 1, 1));
    let mut diagnostics = DiagnosticsCollector::new();
    diagnostics.on_event(&PipelineEvent::WindowBuilt);
    assert_eq!(diagnostics.events.len(), 1);
    let mut bus = EventBus::new();
    bus.add_observer(Box::new(MetricsCollector::new()));
    bus.dispatch(&PipelineEvent::TransformationStarted);
}

#[test]
fn models() {
    let state = TransformationState::new("t".to_string());
    assert_eq!(state.current_text, "t");
    assert!(state.changes.is_empty());
    let metrics = TransformationMetrics { duration_ms: 1, rules_executed: 2, characters_in: 3, characters_out: 4, allocations: 0 };
    let result = TransformationResult::new("o".to_string(), ChangeSet::new(), Vec::new(), metrics);
    assert_eq!(result.output, "o");
    assert_eq!(result.metrics.characters_out, 4);
}

#[test]
fn engine_listening_state() {
    let mut engine = VoiceFlow::new(Device::DesktopMac);
    assert!(!engine.is_listening());
    assert!(engine.start_listening().is_none());
    assert!(engine.is_listening());
    engine.stop_listening();
    assert!(!engine.is_listening());
    let _rx = engine.subscribe();
    assert!(engine.start_listening().is_some());
    assert!(engine.start_listening().is_none());
    engine.worker_stopped();
    assert!(!engine.is_listening());
}

#[test]
fn listening_loop_ends_after_silence_following_speech() {
    let s = ListenState::new(0);
    let (s, a) = listen_step(s, true, Some(false), 20);
    assert_eq!(a, ListenAction::Continue { poll_partial: false });
    assert!(s.silence_start_ms.is_none());
    let (s, _) = listen_step(s, true, Some(true), 40);
    let (s, _) = listen_step(s, true, Some(false), 60);
    assert_eq!(s.silence_start_ms, Some(60));
    let (s, a) = listen_step(s, true, None, 400);
    assert_eq!(a, ListenAction::Continue { poll_partial: true });
    let (_, a) = listen_step(s, true, Some(false), 1561);
    assert_eq!(a, ListenAction::Finalize);
    let (_, a) = listen_step(ListenState::new(0), false, None, 0);
    assert_eq!(a, ListenAction::Stop);
}

struct SharedLog(std::rc::Rc<std::cell::RefCell<Vec<String>>>, &'static str);

impl EventObserver for SharedLog {
    fn on_event(&mut self, event: &PipelineEvent) {
        self.0.borrow_mut().push(format!("{}:{:?}", self.1, event));
    }
}

#[test]
fn bus_hands_each_event_to_every_observer_in_order() {
    let log = std::rc::Rc::new(std::cell::RefCell::new(Vec::new()));
    let mut bus = EventBus::new();
    bus.add_observer(Box::new(SharedLog(log.clone(), "first")));
    bus.add_observer(Box::new(SharedLog(log.clone(), "second")));
    bus.dispatch(&PipelineEvent::WindowBuilt);
    bus.dispatch(&PipelineEvent::MergeFinished);
    assert_eq!(
        *log.borrow(),
        vec![
            "first:WindowBuilt".to_string(),
            "second:WindowBuilt".to_string(),
            "first:MergeFinished".to_string(),
            "second:MergeFinished".to_string(),
        ]
    );
}
