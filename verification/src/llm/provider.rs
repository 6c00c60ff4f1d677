use vstd::prelude::*;

verus! {

/// The local language model; generation hands the text back unchanged until
/// a model is bound.
pub struct LlamaProvider;

impl LlamaProvider {
    pub fn new() -> (p: Self) {
        Self
    }

    /// The generated text for `text` under the given prompts and token limit.
    pub fn generate(&self, _prompt: &str, _system: &str, _max_tokens: usize, text: &str) -> (r: String)
        ensures
            r@ == text@,
    {
        text.to_owned()
    }
}

} // verus!
