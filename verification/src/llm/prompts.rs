use vstd::prelude::*;

use crate::pipeline::intent::UserIntent;
use crate::pipeline::request::RewriteMode;

verus! {

/// The opening every system prompt shares.
pub open spec fn prompt_preamble() -> Seq<char> {
    "You are VoiceFlow, an AI dictation assistant.\n"@
        + "Your only goal is to output the final transformed text.\n"@
        + "Do not add explanations or conversational filler.\n"@
}

/// The instruction for an intent and rewrite mode.
pub open spec fn prompt_instruction(intent: UserIntent, mode: RewriteMode) -> Seq<char> {
    match intent {
        UserIntent::Dictation => "Output the text exactly as provided.\n"@,
        UserIntent::Rewrite => match mode {
            RewriteMode::Light => "Fix grammar, spelling, and punctuation only. "@
                + "Do NOT add content, change the meaning, or change the tone. "@
                + "Output must be structurally similar to the input.\n"@,
            RewriteMode::Standard => "Improve readability and flow while preserving the core meaning.\n"@,
            RewriteMode::Aggressive => "Perform a full AI rewrite. Expand and improve the content aggressively.\n"@,
            RewriteMode::Off => Seq::empty(),
        },
        UserIntent::Summarize => "Summarize the following text concisely.\n"@,
        UserIntent::Translate => "Translate the following text into the requested language.\n"@,
        UserIntent::CorrectGrammar => "Correct the grammar of the following text without changing its meaning.\n"@,
    }
}

/// The system prompt for the language model: the shared preamble, then the
/// instruction for the intent and rewrite mode.
pub fn build_system_prompt(intent: UserIntent, mode: RewriteMode) -> (p: String)
    ensures
        p@ == prompt_preamble() + prompt_instruction(intent, mode),
{
    let mut prompt = String::from_str("You are VoiceFlow, an AI dictation assistant.\n");
    prompt.append("Your only goal is to output the final transformed text.\n");
    prompt.append("Do not add explanations or conversational filler.\n");
    match intent {
        UserIntent::Dictation => {
            prompt.append("Output the text exactly as provided.\n");
        },
        UserIntent::Rewrite => {
            match mode {
                RewriteMode::Light => {
                    prompt.append("Fix grammar, spelling, and punctuation only. ");
                    prompt.append("Do NOT add content, change the meaning, or change the tone. ");
                    prompt.append("Output must be structurally similar to the input.\n");
                },
                RewriteMode::Standard => {
                    prompt.append("Improve readability and flow while preserving the core meaning.\n");
                },
                RewriteMode::Aggressive => {
                    prompt.append("Perform a full AI rewrite. Expand and improve the content aggressively.\n");
                },
                RewriteMode::Off => {},
            }
        },
        UserIntent::Summarize => {
            prompt.append("Summarize the following text concisely.\n");
        },
        UserIntent::Translate => {
            prompt.append("Translate the following text into the requested language.\n");
        },
        UserIntent::CorrectGrammar => {
            prompt.append("Correct the grammar of the following text without changing its meaning.\n");
        },
    }
    proof {
        assert(prompt@ =~= prompt_preamble() + prompt_instruction(intent, mode));
    }
    prompt
}

} // verus!
