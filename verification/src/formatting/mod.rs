pub mod capitalization;
pub mod cleanup;
pub mod commands;
pub mod context;
pub mod developer;
pub mod email_url;
pub mod formatter;
pub mod lists;
pub mod markdown;
pub mod metadata;
pub mod numbers;
pub mod pipeline;
pub mod planner;
pub mod punctuation;
pub mod regions;
pub mod registry;
pub mod spacing;
pub mod streaming;
pub mod traits;
pub mod vocabulary;
