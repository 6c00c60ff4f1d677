pub mod changes;
pub mod context;
pub mod formatting;
pub mod intent;
pub mod models;
pub mod observability;
pub mod processor;
pub mod request;
pub mod response;
pub mod vocabulary;

pub use intent::{IntentDetector, UserIntent};
pub use processor::VoiceFlowProcessor;
pub use request::{FormattingMode, ProcessingOptions, RewriteMode};
pub use response::ProcessingResult;
