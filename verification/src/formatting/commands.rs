use vstd::prelude::*;

use crate::text::{chars_eq, chars_of, occurs_at, spec_lowercase, starts_with, to_lowercase};

verus! {

#[derive(Debug, Clone, Copy, PartialEq, Eq, Structural)]
pub enum CommandType {
    Formatting,
    Application,
    System,
}

/// A spoken command recognised in a transcript.
pub struct VoiceCommand {
    pub raw_text: String,
    pub command_type: CommandType,
}

/// The command type a transcript is, if any: "new paragraph" (any case) is a
/// formatting command, text starting with "open " (any case) an application command.
pub open spec fn spec_command_type(text: Seq<char>) -> Option<CommandType> {
    let lower = spec_lowercase(text);
    if lower == "new paragraph"@ {
        Some(CommandType::Formatting)
    } else if occurs_at(lower, "open "@, 0) {
        Some(CommandType::Application)
    } else {
        None
    }
}

impl VoiceCommand {
    pub fn parse(text: &str) -> (r: Option<Self>)
        ensures
            match r {
                Some(c) => spec_command_type(text@) == Some(c.command_type) && c.raw_text@ == text@,
                None => spec_command_type(text@) is None,
            },
    {
        let lower_string = to_lowercase(text);
        let lower = chars_of(lower_string.as_str());
        let paragraph = chars_of("new paragraph");
        if chars_eq(&lower, &paragraph) {
            return Some(Self { raw_text: text.to_owned(), command_type: CommandType::Formatting });
        }
        let open = chars_of("open ");
        if starts_with(&lower, &open) {
            return Some(Self { raw_text: text.to_owned(), command_type: CommandType::Application });
        }
        None
    }
}

} // verus!
