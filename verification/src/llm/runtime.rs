use vstd::prelude::*;

use super::provider::LlamaProvider;
use crate::profile::RuntimeProfile;

verus! {

/// Runs the language model with a device's limits.
pub struct LlmRuntime {
    provider: LlamaProvider,
}

impl LlmRuntime {
    pub fn new() -> (r: Self) {
        Self { provider: LlamaProvider::new() }
    }

    /// The model's output for `text` under `system_prompt`, limited to the
    /// profile's rewrite token budget.
    pub fn run_inference(&self, text: &str, system_prompt: &str, profile: &dyn RuntimeProfile) -> (r: String)
        ensures
            r@ == text@,
    {
        self.provider.generate(text, system_prompt, profile.rewrite_limit_tokens(), text)
    }
}

} // verus!
