//! The device profiles the processor runs with.
use vstd::prelude::*;

verus! {

/// What a device offers the processing pipeline.
pub trait RuntimeProfile {
    fn stt_model(&self) -> &str;

    fn llm_model(&self) -> &str;

    fn rewrite_limit_tokens(&self) -> usize;

    fn max_context_tokens(&self) -> usize;

    fn target_latency_ms(&self) -> u64;
}

/// A desktop machine.
pub struct DesktopProfile {
    pub stt_model: String,
    pub llm_model: String,
    pub rewrite_limit_tokens: usize,
    pub max_context_tokens: usize,
    pub target_latency_ms: u64,
}

impl Default for DesktopProfile {
    fn default() -> (p: Self)
        ensures
            p.stt_model@ == "faster-whisper-small"@,
            p.llm_model@ == "qwen3-8b-instruct"@,
            p.rewrite_limit_tokens == 500,
            p.max_context_tokens == 4096,
            p.target_latency_ms == 150,
    {
        Self {
            stt_model: "faster-whisper-small".to_owned(),
            llm_model: "qwen3-8b-instruct".to_owned(),
            rewrite_limit_tokens: 500,
            max_context_tokens: 4096,
            target_latency_ms: 150,
        }
    }
}

impl RuntimeProfile for DesktopProfile {
    fn stt_model(&self) -> (r: &str)
        ensures
            r@ == self.stt_model@,
    {
        self.stt_model.as_str()
    }

    fn llm_model(&self) -> (r: &str)
        ensures
            r@ == self.llm_model@,
    {
        self.llm_model.as_str()
    }

    fn rewrite_limit_tokens(&self) -> (r: usize)
        ensures
            r == self.rewrite_limit_tokens,
    {
        self.rewrite_limit_tokens
    }

    fn max_context_tokens(&self) -> (r: usize)
        ensures
            r == self.max_context_tokens,
    {
        self.max_context_tokens
    }

    fn target_latency_ms(&self) -> (r: u64)
        ensures
            r == self.target_latency_ms,
    {
        self.target_latency_ms
    }
}

/// A phone or tablet.
pub struct MobileProfile {
    pub stt_model: String,
    pub llm_model: String,
    pub rewrite_limit_tokens: usize,
    pub max_context_tokens: usize,
    pub target_latency_ms: u64,
}

impl Default for MobileProfile {
    fn default() -> (p: Self)
        ensures
            p.stt_model@ == "whisper-tiny"@,
            p.llm_model@ == "qwen3-1.7b"@,
            p.rewrite_limit_tokens == 250,
            p.max_context_tokens == 2048,
            p.target_latency_ms == 100,
    {
        Self {
            stt_model: "whisper-tiny".to_owned(),
            llm_model: "qwen3-1.7b".to_owned(),
            rewrite_limit_tokens: 250,
            max_context_tokens: 2048,
            target_latency_ms: 100,
        }
    }
}

impl RuntimeProfile for MobileProfile {
    fn stt_model(&self) -> (r: &str)
        ensures
            r@ == self.stt_model@,
    {
        self.stt_model.as_str()
    }

    fn llm_model(&self) -> (r: &str)
        ensures
            r@ == self.llm_model@,
    {
        self.llm_model.as_str()
    }

    fn rewrite_limit_tokens(&self) -> (r: usize)
        ensures
            r == self.rewrite_limit_tokens,
    {
        self.rewrite_limit_tokens
    }

    fn max_context_tokens(&self) -> (r: usize)
        ensures
            r == self.max_context_tokens,
    {
        self.max_context_tokens
    }

    fn target_latency_ms(&self) -> (r: u64)
        ensures
            r == self.target_latency_ms,
    {
        self.target_latency_ms
    }
}

} // verus!
