pub mod prompts;
pub mod provider;
pub mod rewrite;
pub mod runtime;
pub mod safety;
