//! The basic clean-up of a raw transcript: blank-audio markers, fillers, spaces, capitals, a final mark.
use vstd::prelude::*;

use crate::matching::{replace_or_keep, replaced};
use crate::text::{chars_of, replace_chars, replace_text, string_of, trim, trimmed};

verus! {

/// Filler words ("um", "uh", "like", "you know") as whole words, in any case.
pub const FILLER_WORDS: &'static str = r"(?i)\b(um|uh|like|you know)\b";

/// A run of whitespace.
pub const SPACE_RUN: &'static str = r"\s+";

/// `s` with its first char uppercased when it is an ASCII lowercase letter,
/// and a period added when it does not end with `.`, `!` or `?` (empty stays empty).
pub open spec fn finish_sentence(s: Seq<char>) -> Seq<char> {
    if s.len() == 0 {
        s
    } else {
        let first = if 'a' <= s[0] && s[0] <= 'z' { ((s[0] as u32) - 32) as char } else { s[0] };
        let t = s.update(0, first);
        if t.last() == '.' || t.last() == '!' || t.last() == '?' {
            t
        } else {
            t.push('.')
        }
    }
}

/// What `FormattingEngine::apply` gives: blank-audio markers removed,
/// fillers removed, whitespace runs made one space, trimmed, then the first
/// letter capitalized and a final period added where missing.
pub open spec fn spec_engine_apply(text: Seq<char>) -> Seq<char> {
    let unmarked = replace_text(replace_text(text, "[BLANK_AUDIO]"@, ""@), "[_BLANK_AUDIO_]"@, ""@);
    let spaced = replaced(SPACE_RUN@, replaced(FILLER_WORDS@, unmarked, ""@), " "@);
    finish_sentence(trim(spaced))
}

/// Cleans raw transcripts with fixed patterns.
pub struct FormattingEngine {
    filler_pattern: &'static str,
    space_pattern: &'static str,
}

impl FormattingEngine {
    /// Whether the engine uses the filler and space patterns.
    pub closed spec fn well_formed(&self) -> bool {
        self.filler_pattern@ == FILLER_WORDS@ && self.space_pattern@ == SPACE_RUN@
    }

    pub fn new() -> (e: Self)
        ensures
            e.well_formed(),
    {
        Self { filler_pattern: FILLER_WORDS, space_pattern: SPACE_RUN }
    }

    pub fn apply(&self, text: &str) -> (r: String)
        requires
            self.well_formed(),
        ensures
            r@ == spec_engine_apply(text@),
    {
        let chars = chars_of(text);
        proof {
            reveal_strlit("[BLANK_AUDIO]");
            reveal_strlit("[_BLANK_AUDIO_]");
        }
        let a = replace_chars(&chars, "[BLANK_AUDIO]", "");
        let b = replace_chars(&a, "[_BLANK_AUDIO_]", "");
        let without_fillers = replace_or_keep(self.filler_pattern, string_of(&b).as_str(), "");
        let spaced = replace_or_keep(self.space_pattern, without_fillers.as_str(), " ");
        let sc = chars_of(spaced.as_str());
        let mut t = trimmed(&sc);
        if t.len() > 0 {
            let c = t[0];
            if 'a' <= c && c <= 'z' {
                t.set(0, ((c as u8) - 32) as char);
            } else {
                t.set(0, c);
            }
            let last = t[t.len() - 1];
            if !(last == '.' || last == '!' || last == '?') {
                t.push('.');
            }
        }
        string_of(&t)
    }
}

impl Default for FormattingEngine {
    fn default() -> (e: Self)
        ensures
            e.well_formed(),
    {
        Self::new()
    }
}

} // verus!
