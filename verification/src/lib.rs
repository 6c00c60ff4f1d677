use vstd::prelude::*;

pub mod clock;
pub mod text;
pub mod matching;
pub mod editing;
pub mod events;
pub mod pipeline;
pub mod formatting;
pub mod llm;
pub mod profile;
pub mod runtime;

pub use events::VoiceFlowEvent;
pub use pipeline::{FormattingMode, ProcessingOptions, ProcessingResult, RewriteMode, UserIntent, VoiceFlowProcessor};
pub use profile::{DesktopProfile, MobileProfile, RuntimeProfile};
pub use runtime::VoiceFlow;

verus! {

} // verus!
