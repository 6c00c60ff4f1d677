use vstd::prelude::*;

use crate::text::{chars_of, contains, contains_seq, occurs_at, spec_lowercase, starts_with, to_lowercase, utf8_len};

verus! {

/// What the speaker wants done with a transcript.
#[derive(Debug, Clone, Copy, PartialEq, Eq, Structural)]
pub enum UserIntent {
    Dictation,
    Rewrite,
    Summarize,
    Translate,
    CorrectGrammar,
}

pub struct IntentDetector;

/// Whether `lower` starts with `prefix` or contains `phrase`.
pub open spec fn asks_for(lower: Seq<char>, prefix: Seq<char>, phrase: Seq<char>) -> bool {
    occurs_at(lower, prefix, 0) || contains_seq(lower, phrase)
}

/// The intent of a transcript, from its lowercase form: dictation when it
/// has fewer than 10 bytes, else the first keyword rule that fires, else dictation.
pub open spec fn spec_detect(transcript: Seq<char>) -> UserIntent {
    let lower = spec_lowercase(transcript);
    if utf8_len(lower) < 10 {
        UserIntent::Dictation
    } else if asks_for(lower, "rewrite"@, "rewrite professionally"@) {
        UserIntent::Rewrite
    } else if asks_for(lower, "summarize"@, "summarize this"@) {
        UserIntent::Summarize
    } else if asks_for(lower, "translate"@, "translate to"@) {
        UserIntent::Translate
    } else if asks_for(lower, "correct grammar"@, "fix grammar"@) {
        UserIntent::CorrectGrammar
    } else {
        UserIntent::Dictation
    }
}

fn asks_for_exec(lower: &[char], prefix: &str, phrase: &str) -> (r: bool)
    ensures
        r == asks_for(lower@, prefix@, phrase@),
{
    let p = chars_of(prefix);
    let q = chars_of(phrase);
    starts_with(lower, &p) || contains(lower, &q)
}

impl IntentDetector {
    pub fn detect(transcript: &str) -> (intent: UserIntent)
        ensures
            intent == spec_detect(transcript@),
    {
        let lower_string = to_lowercase(transcript);
        if crate::text::byte_len(lower_string.as_str()) < 10 {
            return UserIntent::Dictation;
        }
        let lower = chars_of(lower_string.as_str());
        if asks_for_exec(&lower, "rewrite", "rewrite professionally") {
            return UserIntent::Rewrite;
        }
        if asks_for_exec(&lower, "summarize", "summarize this") {
            return UserIntent::Summarize;
        }
        if asks_for_exec(&lower, "translate", "translate to") {
            return UserIntent::Translate;
        }
        if asks_for_exec(&lower, "correct grammar", "fix grammar") {
            return UserIntent::CorrectGrammar;
        }
        UserIntent::Dictation
    }
}


/// How a transcript's intent follows from its lowercase form `lower`: a
/// transcript of fewer than 10 bytes is dictation; otherwise, in this order
/// of precedence, one that starts with "rewrite" or contains "rewrite
/// professionally" asks for a rewrite, one that starts with "summarize" or
/// contains "summarize this" for a summary, one that starts with "translate"
/// or contains "translate to" for a translation, and one that starts with
/// "correct grammar" or contains "fix grammar" for a grammar correction;
/// anything else is dictation.
pub proof fn lemma_detect_keywords(transcript: Seq<char>)
    ensures
        ({
            let lower = spec_lowercase(transcript);
            let long = utf8_len(lower) >= 10;
            let rewrite = occurs_at(lower, "rewrite"@, 0) || contains_seq(lower, "rewrite professionally"@);
            let summarize = occurs_at(lower, "summarize"@, 0) || contains_seq(lower, "summarize this"@);
            let translate = occurs_at(lower, "translate"@, 0) || contains_seq(lower, "translate to"@);
            let grammar = occurs_at(lower, "correct grammar"@, 0) || contains_seq(lower, "fix grammar"@);
            &&& !long ==> spec_detect(transcript) == UserIntent::Dictation
            &&& long && rewrite ==> spec_detect(transcript) == UserIntent::Rewrite
            &&& long && !rewrite && summarize ==> spec_detect(transcript) == UserIntent::Summarize
            &&& long && !rewrite && !summarize && translate ==> spec_detect(transcript) == UserIntent::Translate
            &&& long && !rewrite && !summarize && !translate && grammar ==> spec_detect(transcript) == UserIntent::CorrectGrammar
            &&& long && !rewrite && !summarize && !translate && !grammar ==> spec_detect(transcript) == UserIntent::Dictation
        }),
{
}

} // verus!
