//! A looser false-start recovery: a single word repeated one word further on
//! also counts.
use vstd::prelude::*;

use super::repeats::{cut_false_starts, upper_first_ascii, upper_first_ascii_exec, without_false_starts};
use crate::text::{chars_of, string_of, trim_end, trim_start, trimmed_end, trimmed_start};

verus! {

/// What this `resolve_false_starts` returns: the text without its aborted
/// runs, with the first letter ASCII-uppercased and surrounding whitespace
/// trimmed; the text itself when nothing was aborted.
pub open spec fn spec_loose_false_starts(text: Seq<char>) -> Seq<char> {
    match without_false_starts(text, true) {
        Some(kept) => trim_end(upper_first_ascii(trim_start(kept))),
        None => text,
    }
}

pub fn resolve_false_starts(text: &str) -> (r: String)
    ensures
        r@ == spec_loose_false_starts(text@),
{
    let chars = chars_of(text);
    match cut_false_starts(&chars, true) {
        Some(kept) => {
            let mut t = trimmed_start(&kept);
            upper_first_ascii_exec(&mut t);
            let out = trimmed_end(&t);
            string_of(&out)
        },
        None => text.to_owned(),
    }
}

} // verus!
