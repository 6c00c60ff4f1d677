use vstd::prelude::*;

use super::prompts::build_system_prompt;
use super::runtime::LlmRuntime;
use super::safety::{spec_strip_filler, strip_filler};
use crate::pipeline::intent::UserIntent;
use crate::pipeline::request::RewriteMode;
use crate::profile::RuntimeProfile;

verus! {

/// What `rewrite` gives: the text itself when rewriting is off or the intent
/// is plain dictation, else the model's reply without its filler.
pub open spec fn spec_rewrite(text: Seq<char>, intent: UserIntent, mode: RewriteMode) -> Seq<char> {
    if mode == RewriteMode::Off || intent == UserIntent::Dictation {
        text
    } else {
        spec_strip_filler(text)
    }
}

/// Rewrites `text` with the language model for the given intent and mode.
pub fn rewrite(text: &str, intent: UserIntent, mode: RewriteMode, profile: &dyn RuntimeProfile) -> (r: String)
    ensures
        r@ == spec_rewrite(text@, intent, mode),
{
    if mode == RewriteMode::Off || intent == UserIntent::Dictation {
        return text.to_owned();
    }
    let runtime = LlmRuntime::new();
    let system_prompt = build_system_prompt(intent, mode);
    let raw_output = runtime.run_inference(text, system_prompt.as_str(), profile);
    strip_filler(raw_output.as_str())
}

} // verus!
