//! The whole processing of one transcript: intent, formatting, rewriting.
use vstd::prelude::*;

use super::intent::{spec_detect, IntentDetector, UserIntent};
use super::request::{FormattingMode, ProcessingOptions, RewriteMode};
use super::response::ProcessingResult;
use crate::clock::{instant_now, millis_since};
use crate::formatting::context::FormattingContext;
use crate::formatting::formatter::spec_format_with;
use crate::llm::rewrite::{rewrite, spec_rewrite};
use crate::profile::RuntimeProfile;

verus! {

/// Whether the language model rewrites a transcript: when it is enabled, a
/// rewrite mode is set and the speaker asked for more than dictation.
pub open spec fn uses_model(options: ProcessingOptions, intent: UserIntent) -> bool {
    options.llm_enabled && options.rewrite_mode != RewriteMode::Off && intent != UserIntent::Dictation
}

/// The formatted transcript under the options' formatting mode.
pub open spec fn formatted_for(transcript: Seq<char>, mode: FormattingMode) -> Seq<char> {
    spec_format_with(transcript, mode, "en"@, false, None)
}

/// Processes transcripts for one device profile.
pub struct VoiceFlowProcessor {
    profile: Box<dyn RuntimeProfile>,
}

impl VoiceFlowProcessor {
    pub fn new(profile: impl RuntimeProfile + 'static) -> (p: Self) {
        Self { profile: Box::new(profile) }
    }

    /// Detects the intent, formats the transcript in the options' mode and,
    /// when the model is used, rewrites the formatted text.
    pub fn process(&self, transcript: &str, options: ProcessingOptions) -> (r: ProcessingResult)
        ensures
            r.raw_text@ == transcript@,
            r.intent == spec_detect(transcript@),
            r.formatted_text@ == formatted_for(transcript@, options.formatting_mode),
            r.used_llm == uses_model(options, spec_detect(transcript@)),
            r.final_text@ == (if uses_model(options, spec_detect(transcript@)) {
                spec_rewrite(formatted_for(transcript@, options.formatting_mode), spec_detect(transcript@), options.rewrite_mode)
            } else {
                formatted_for(transcript@, options.formatting_mode)
            }),
    {
        let start_time = instant_now();
        let intent = IntentDetector::detect(transcript);
        let ctx = FormattingContext::new(options.formatting_mode, None);
        let formatted_text = crate::formatting::formatter::format(transcript, &ctx);
        let used = options.llm_enabled && options.rewrite_mode != RewriteMode::Off && intent != UserIntent::Dictation;
        let final_text = if used {
            rewrite(formatted_text.as_str(), intent, options.rewrite_mode, &*self.profile)
        } else {
            formatted_text.clone()
        };
        let processing_time_ms = millis_since(&start_time) as u64;
        ProcessingResult {
            raw_text: transcript.to_owned(),
            formatted_text,
            final_text,
            intent,
            used_llm: used,
            processing_time_ms,
        }
    }
}

} // verus!
