use vstd::prelude::*;

use crate::matching::{captures_in, group, group_at, regex_captures, span_end, span_start};
use crate::text::{chars_of, slice, string_of, trim, trimmed};

verus! {

/// A reply wrapped in double quotes, with its inside as group 1.
pub const QUOTED_REPLY: &'static str = r#"^"([\s\S]*)"$"#;

/// The lead-ins a model puts before its answer, in the order they are stripped.
pub open spec fn filler_prefixes() -> Seq<Seq<char>> {
    seq![
        "Sure! Here is the rewritten text:"@,
        "Sure, here's the rewritten text:"@,
        "Here is the rewritten text:"@,
        "Here's the rewritten text:"@,
        "I improved the grammar:"@,
        "Here is the text:"@,
        "Here you go:"@,
    ]
}

/// `c` with ASCII uppercase letters lowered.
pub open spec fn ascii_lower(c: char) -> char {
    if 'A' <= c && c <= 'Z' {
        ((c as u32) + 32) as char
    } else {
        c
    }
}

/// Whether `s` starts with `p`, ignoring ASCII case.
pub open spec fn starts_with_caseless(s: Seq<char>, p: Seq<char>) -> bool {
    p.len() <= s.len() && forall|i: int| 0 <= i < p.len() ==> ascii_lower(#[trigger] s[i]) == ascii_lower(p[i])
}

/// `s` after stripping, in turn, each of the first `n` lead-ins it starts with
/// (ignoring case), trimming after each.
pub open spec fn strip_prefixes(s: Seq<char>, n: int) -> Seq<char>
    decreases n,
{
    if n <= 0 {
        s
    } else {
        let before = strip_prefixes(s, n - 1);
        let p = filler_prefixes()[n - 1];
        if starts_with_caseless(before, p) {
            trim(before.skip(p.len() as int))
        } else {
            before
        }
    }
}

/// A model reply with its lead-in and surrounding quotes removed: trimmed,
/// each known lead-in stripped, then the inside of a quoted reply, trimmed.
pub open spec fn spec_strip_filler(text: Seq<char>) -> Seq<char> {
    let s = strip_prefixes(trim(text), 7);
    match regex_captures(QUOTED_REPLY@, s) {
        Some(g) => match group(g, 1) {
            Some(_) => trim(s.subrange(span_start(group(g, 1)), span_end(group(g, 1)))),
            None => s,
        },
        None => s,
    }
}

fn ascii_lower_exec(c: char) -> (r: char)
    ensures
        r == ascii_lower(c),
{
    if 'A' <= c && c <= 'Z' {
        ((c as u8) + 32) as char
    } else {
        c
    }
}

fn starts_with_caseless_exec(s: &Vec<char>, p: &Vec<char>) -> (r: bool)
    ensures
        r == starts_with_caseless(s@, p@),
{
    if p.len() > s.len() {
        return false;
    }
    let mut i: usize = 0;
    while i < p.len()
        invariant
            p@.len() <= s@.len(),
            i <= p@.len(),
            forall|j: int| 0 <= j < i ==> ascii_lower(#[trigger] s@[j]) == ascii_lower(p@[j]),
        decreases p@.len() - i,
    {
        if ascii_lower_exec(s[i]) != ascii_lower_exec(p[i]) {
            return false;
        }
        i = i + 1;
    }
    true
}

fn filler_prefix(k: usize) -> (p: &'static str)
    requires
        k < 7,
    ensures
        p@ == filler_prefixes()[k as int],
{
    let p = if k == 0 {
        "Sure! Here is the rewritten text:"
    } else if k == 1 {
        "Sure, here's the rewritten text:"
    } else if k == 2 {
        "Here is the rewritten text:"
    } else if k == 3 {
        "Here's the rewritten text:"
    } else if k == 4 {
        "I improved the grammar:"
    } else if k == 5 {
        "Here is the text:"
    } else {
        "Here you go:"
    };
    p
}

/// Removes what a model tends to wrap its answer in.
pub fn strip_filler(text: &str) -> (r: String)
    ensures
        r@ == spec_strip_filler(text@),
{
    let t = chars_of(text);
    let mut clean = trimmed(&t);
    let mut k: usize = 0;
    while k < 7
        invariant
            k <= 7,
            clean@ == strip_prefixes(trim(text@), k as int),
        decreases 7 - k,
    {
        let p = chars_of(filler_prefix(k));
        if starts_with_caseless_exec(&clean, &p) {
            let rest = slice(&clean, p.len(), clean.len());
            proof {
                assert(rest@ =~= clean@.skip(p@.len() as int));
            }
            clean = trimmed(&rest);
        }
        k = k + 1;
    }
    match captures_in(QUOTED_REPLY, &clean) {
        Some(g) => {
            match group_at(&g, 1) {
                Some((a, b)) => {
                    let inner = slice(&clean, a, b);
                    let out = trimmed(&inner);
                    string_of(&out)
                },
                None => string_of(&clean),
            }
        },
        None => string_of(&clean),
    }
}

} // verus!
