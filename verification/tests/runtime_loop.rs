use voiceflow_core::runtime::{listen_step, ListenAction, ListenState, RuntimeProfile, VoiceFlow};
use voiceflow_core::VoiceFlowEvent;

#[test]
fn test_voiceflow_state_machine() {
    let mut engine = VoiceFlow::new(RuntimeProfile::DesktopMac);
    assert!(!engine.is_listening(), "Engine should not be listening on creation");

    let receiver = engine.subscribe();

    // Simulate hotkey press
    let _worker = engine.start_listening();
    assert!(engine.is_listening(), "Engine should be listening after start");

    let event = receiver.try_recv().expect("Should have received an event");
    match event {
        VoiceFlowEvent::ListeningStarted => {}
        _ => panic!("Expected ListeningStarted event"),
    }

    // Simulate hotkey toggle
    engine.stop_listening();
    assert!(!engine.is_listening(), "Engine should not be listening after stop");

    let event = receiver
        .recv_timeout(std::time::Duration::from_secs(2))
        .expect("Should have received ListeningStopped event");
    match event {
        VoiceFlowEvent::ListeningStopped | VoiceFlowEvent::Error(_) => {}
        _ => panic!("Expected ListeningStopped or Error event"),
    }
}

/// What the listening worker reads each round: a chunk (empty or not) and
/// whether voice detection heard speech in it.
struct MockAudio {
    chunks: std::vec::IntoIter<(Vec<f32>, bool)>,
}

impl MockAudio {
    fn next_round(&mut self) -> Option<bool> {
        match self.chunks.next() {
            Some((chunk, is_speech)) if !chunk.is_empty() => Some(is_speech),
            _ => None,
        }
    }
}

#[test]
fn test_pause_stops_transcription() {
    let mut engine = VoiceFlow::new(RuntimeProfile::DesktopMac);
    let rx = engine.subscribe();
    let _worker = engine.start_listening();

    // We simulate some speech frames, and then silence; each round takes 20 ms.
    let mut audio_chunks = Vec::new();
    for _ in 0..5 {
        audio_chunks.push((vec![0.5; 160], true));
    }
    for _ in 0..100 {
        audio_chunks.push((vec![0.0; 160], false));
    }
    let mut audio = MockAudio { chunks: audio_chunks.into_iter() };

    // Run the loop. It should exit on its own after silence threshold is met.
    let mut now: u64 = 100;
    let mut state = ListenState::new(0);
    loop {
        let speech = audio.next_round();
        let (next, action) = listen_step(state, engine.is_listening(), speech, now);
        state = next;
        match action {
            ListenAction::Stop => break,
            ListenAction::Continue { .. } => {}
            ListenAction::Finalize => {
                engine.finish_utterance("Mock final transcript".to_string());
                break;
            }
        }
        now += 20;
    }

    // Verify the loop correctly turned off listening
    assert!(!engine.is_listening(), "Listening should be false after pause triggers stop");

    // Collect emitted events
    let mut final_transcript_received = false;
    while let Ok(event) = rx.try_recv() {
        if let VoiceFlowEvent::FinalTranscript(text) = event {
            assert_eq!(text, "Mock final transcript");
            final_transcript_received = true;
        }
    }

    assert!(final_transcript_received, "Expected FinalTranscript event to be sent after pause");
}

#[test]
fn engine_events_come_in_order() {
    let mut engine = VoiceFlow::new(RuntimeProfile::MobileIos);
    let rx = engine.subscribe();
    assert!(engine.start_listening().is_some());
    assert!(engine.start_listening().is_none());
    engine.report_partial(String::new());
    engine.report_partial("hel".to_string());
    engine.fail("mic gone".to_string());
    engine.stop_listening();
    let events: Vec<String> = rx.try_iter().map(|e| format!("{:?}", e)).collect();
    assert_eq!(
        events,
        vec![
            "ListeningStarted".to_string(),
            "PartialTranscript(\"hel\")".to_string(),
            "Error(\"mic gone\")".to_string(),
            "ListeningStopped".to_string(),
        ]
    );
}
