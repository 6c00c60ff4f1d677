//! Dictated code: identifier casing and spoken operators.
use vstd::prelude::*;

use super::metadata::{builtin, builtin_metadata, regex_capabilities, streaming_regex_capabilities, RuleCategory, RuleMetadata};
use super::traits::{finish_rule_run, logs_run, FormatterRule};
use crate::clock::instant_now;
use crate::matching::{
    captures_all_in, group_chars, group_text_of, matches_view, pieces_view, regex_captures_all,
    replace_each, replace_table, splice_all, splice_matches, table_view, well_formed_matches, Groups,
};
use crate::pipeline::models::{TransformationRequest, TransformationState};
use crate::pipeline::request::FormattingMode;
use crate::text::{
    append, char_to_uppercase, chars_of, join, join_with, same_text, slice, spec_lowercase,
    spec_uppercase_char, split_words, string_of, to_lowercase, trim, trimmed, words, words_view,
};

verus! {

/// "snake case" followed by the words of an identifier (group 1), up to
/// "end casing" or the end of the text.
pub const SNAKE_CASE_COMMAND: &'static str = r"(?i)snake\s+case\s+([a-zA-Z0-9\s]+?)(?:(?:\s+end\s+casing)|\b$)";

/// "camel case" followed by the words of an identifier (group 1), up to
/// "end casing" or the end of the text.
pub const CAMEL_CASE_COMMAND: &'static str = r"(?i)camel\s+case\s+([a-zA-Z0-9\s]+?)(?:(?:\s+end\s+casing)|\b$)";

/// The lowercase words of `content`, joined with underscores.
pub open spec fn snake_identifier(content: Seq<char>) -> Seq<char> {
    join(words(trim(content)).map_values(|w: Seq<char>| spec_lowercase(w)), "_"@)
}

/// A word with its first char uppercased and the rest lowercased.
pub open spec fn capitalized_word(w: Seq<char>) -> Seq<char> {
    if w.len() > 0 {
        spec_uppercase_char(w[0]) + spec_lowercase(w.drop_first())
    } else {
        seq![]
    }
}

/// The words of `ws`, each capitalized, run together.
pub open spec fn capitalized_run(ws: Seq<Seq<char>>) -> Seq<char>
    decreases ws.len(),
{
    if ws.len() == 0 {
        seq![]
    } else {
        capitalized_run(ws.drop_last()) + capitalized_word(ws.last())
    }
}

/// The words of `content` run together, the first lowercased and the others capitalized.
pub open spec fn camel_identifier(content: Seq<char>) -> Seq<char> {
    let ws = words(trim(content));
    if ws.len() == 0 {
        seq![]
    } else {
        spec_lowercase(ws[0]) + capitalized_run(ws.drop_first())
    }
}

/// `text` with each casing command of `pattern` replaced by `ident` of its words.
pub open spec fn snake_cased(text: Seq<char>) -> Seq<char> {
    let ms = regex_captures_all(SNAKE_CASE_COMMAND@, text);
    splice_matches(text, ms, ms.map_values(|g: Groups| snake_identifier(group_text_of(text, g, 1))))
}

/// `text` with each camel-case command replaced by the identifier it spells.
pub open spec fn camel_cased(text: Seq<char>) -> Seq<char> {
    let ms = regex_captures_all(CAMEL_CASE_COMMAND@, text);
    splice_matches(text, ms, ms.map_values(|g: Groups| camel_identifier(group_text_of(text, g, 1))))
}

/// Spoken operators and what they become.
pub open spec fn operator_table() -> Seq<(Seq<char>, Seq<char>)> {
    seq![
        (r"(?i)\bdouble equal(?:s)?\b"@, "=="@),
        (r"(?i)\btriple equal(?:s)?\b"@, "==="@),
        (r"(?i)\bnot equal(?:s)?\b"@, "!="@),
        (r"(?i)\bgreater than or equal(?:s)?\b"@, ">="@),
        (r"(?i)\bless than or equal(?:s)?\b"@, "<="@),
        (r"(?i)\bgreater than\b"@, ">"@),
        (r"(?i)\bless than\b"@, "<"@),
        (r"(?i)\bforward slash\b"@, "/"@),
        (r"(?i)\bbackslash\b"@, "\\"@),
    ]
}

/// What the developer rule makes of a text: snake-case commands, then
/// camel-case commands, then spoken operators.
pub open spec fn spec_developer(text: Seq<char>) -> Seq<char> {
    replace_each(camel_cased(snake_cased(text)), operator_table())
}

/// Whether the developer rule runs for a request: in developer mode, or when
/// the language is Rust or Python.
pub open spec fn wants_developer(request: TransformationRequest) -> bool {
    request.mode == FormattingMode::Developer || request.user_context.language@ == "rust"@
        || request.user_context.language@ == "python"@
}

fn lowercase_words(ws: &Vec<Vec<char>>) -> (r: Vec<Vec<char>>)
    ensures
        words_view(r@) == words_view(ws@).map_values(|w: Seq<char>| spec_lowercase(w)),
{
    let mut out: Vec<Vec<char>> = Vec::new();
    let mut k: usize = 0;
    while k < ws.len()
        invariant
            k <= ws@.len(),
            words_view(out@) == words_view(ws@).map_values(|w: Seq<char>| spec_lowercase(w)).take(k as int),
        decreases ws@.len() - k,
    {
        let lower = to_lowercase(string_of(&ws[k]).as_str());
        let ghost before = out@;
        out.push(chars_of(lower.as_str()));
        proof {
            assert(words_view(out@) =~= words_view(before).push(out@[k as int]@));
            assert(words_view(ws@).map_values(|w: Seq<char>| spec_lowercase(w)).take(k + 1)
                =~= words_view(ws@).map_values(|w: Seq<char>| spec_lowercase(w)).take(k as int).push(spec_lowercase(ws@[k as int]@)));
        }
        k = k + 1;
    }
    proof {
        assert(words_view(ws@).map_values(|w: Seq<char>| spec_lowercase(w)).take(ws@.len() as int)
            =~= words_view(ws@).map_values(|w: Seq<char>| spec_lowercase(w)));
    }
    out
}

fn snake_of(content: &Vec<char>) -> (r: Vec<char>)
    ensures
        r@ == snake_identifier(content@),
{
    let t = trimmed(content);
    let ws = split_words(&t);
    let lowered = lowercase_words(&ws);
    join_with(&lowered, "_")
}

fn capitalized(w: &Vec<char>) -> (r: Vec<char>)
    ensures
        r@ == capitalized_word(w@),
{
    if w.len() == 0 {
        return Vec::new();
    }
    let up = char_to_uppercase(w[0]);
    let mut out = chars_of(up.as_str());
    let rest = slice(w, 1, w.len());
    let lower = to_lowercase(string_of(&rest).as_str());
    let lower_chars = chars_of(lower.as_str());
    append(&mut out, &lower_chars);
    proof {
        assert(rest@ =~= w@.drop_first());
    }
    out
}

fn camel_of(content: &Vec<char>) -> (r: Vec<char>)
    ensures
        r@ == camel_identifier(content@),
{
    let t = trimmed(content);
    let ws = split_words(&t);
    let ghost wv = words_view(ws@);
    if ws.len() == 0 {
        return Vec::new();
    }
    let first = to_lowercase(string_of(&ws[0]).as_str());
    let mut out = chars_of(first.as_str());
    let ghost head = out@;
    let mut k: usize = 1;
    proof {
        assert(wv.drop_first().take(0) =~= Seq::<Seq<char>>::empty());
    }
    while k < ws.len()
        invariant
            wv == words_view(ws@),
            1 <= k <= ws@.len(),
            out@ == head + capitalized_run(wv.drop_first().take(k - 1)),
        decreases ws@.len() - k,
    {
        let c = capitalized(&ws[k]);
        append(&mut out, &c);
        proof {
            let t = wv.drop_first().take(k as int);
            assert(t.drop_last() =~= wv.drop_first().take(k - 1));
            assert(t.last() == ws@[k as int]@);
        }
        k = k + 1;
    }
    proof {
        assert(wv.drop_first().take(ws@.len() - 1) =~= wv.drop_first());
    }
    out
}

fn snake_case_in(text: &Vec<char>) -> (r: Vec<char>)
    ensures
        r@ == snake_cased(text@),
{
    let ms = captures_all_in(SNAKE_CASE_COMMAND, text);
    let ghost mv = matches_view(ms);
    let mut pieces: Vec<Vec<char>> = Vec::new();
    let mut k: usize = 0;
    while k < ms.len()
        invariant
            mv == matches_view(ms),
            mv == regex_captures_all(SNAKE_CASE_COMMAND@, text@),
            well_formed_matches(mv, text@.len()),
            k <= ms@.len(),
            pieces@.len() == k,
            pieces_view(pieces@) == mv.map_values(|g: Groups| snake_identifier(group_text_of(text@, g, 1))).take(k as int),
        decreases ms@.len() - k,
    {
        proof {
            assert(mv[k as int] == ms@[k as int]@);
        }
        let content = group_chars(text, &ms[k], 1);
        let piece = snake_of(&content);
        let ghost before = pieces@;
        pieces.push(piece);
        proof {
            assert(pieces_view(pieces@) =~= pieces_view(before).push(pieces@[k as int]@));
            assert(mv.map_values(|g: Groups| snake_identifier(group_text_of(text@, g, 1))).take(k + 1)
                =~= mv.map_values(|g: Groups| snake_identifier(group_text_of(text@, g, 1))).take(k as int).push(
                snake_identifier(group_text_of(text@, mv[k as int], 1))));
        }
        k = k + 1;
    }
    proof {
        assert(mv.map_values(|g: Groups| snake_identifier(group_text_of(text@, g, 1))).take(ms@.len() as int)
            =~= mv.map_values(|g: Groups| snake_identifier(group_text_of(text@, g, 1))));
    }
    splice_all(text, &ms, &pieces)
}


fn camel_case_in(text: &Vec<char>) -> (r: Vec<char>)
    ensures
        r@ == camel_cased(text@),
{
    let ms = captures_all_in(CAMEL_CASE_COMMAND, text);
    let ghost mv = matches_view(ms);
    let mut pieces: Vec<Vec<char>> = Vec::new();
    let mut k: usize = 0;
    while k < ms.len()
        invariant
            mv == matches_view(ms),
            mv == regex_captures_all(CAMEL_CASE_COMMAND@, text@),
            well_formed_matches(mv, text@.len()),
            k <= ms@.len(),
            pieces@.len() == k,
            pieces_view(pieces@) == mv.map_values(|g: Groups| camel_identifier(group_text_of(text@, g, 1))).take(k as int),
        decreases ms@.len() - k,
    {
        proof {
            assert(mv[k as int] == ms@[k as int]@);
        }
        let content = group_chars(text, &ms[k], 1);
        let piece = camel_of(&content);
        let ghost before = pieces@;
        pieces.push(piece);
        proof {
            assert(pieces_view(pieces@) =~= pieces_view(before).push(pieces@[k as int]@));
            assert(mv.map_values(|g: Groups| camel_identifier(group_text_of(text@, g, 1))).take(k + 1)
                =~= mv.map_values(|g: Groups| camel_identifier(group_text_of(text@, g, 1))).take(k as int).push(
                camel_identifier(group_text_of(text@, mv[k as int], 1))));
        }
        k = k + 1;
    }
    proof {
        assert(mv.map_values(|g: Groups| camel_identifier(group_text_of(text@, g, 1))).take(ms@.len() as int)
            =~= mv.map_values(|g: Groups| camel_identifier(group_text_of(text@, g, 1))));
    }
    splice_all(text, &ms, &pieces)
}

/// Applies the casing commands and spoken operators to `text`.
pub fn format_developer(text: &str) -> (r: String)
    ensures
        r@ == spec_developer(text@),
{
    let chars = chars_of(text);
    let snaked = snake_case_in(&chars);
    let cameled = camel_case_in(&snaked);
    let table = vec![
        (r"(?i)\bdouble equal(?:s)?\b", "=="),
        (r"(?i)\btriple equal(?:s)?\b", "==="),
        (r"(?i)\bnot equal(?:s)?\b", "!="),
        (r"(?i)\bgreater than or equal(?:s)?\b", ">="),
        (r"(?i)\bless than or equal(?:s)?\b", "<="),
        (r"(?i)\bgreater than\b", ">"),
        (r"(?i)\bless than\b", "<"),
        (r"(?i)\bforward slash\b", "/"),
        (r"(?i)\bbackslash\b", "\\"),
    ];
    proof {
        assert(table_view(table@) =~= operator_table());
    }
    replace_table(string_of(&cameled).as_str(), &table)
}

/// The developer-pass rule, run in developer mode or for Rust or Python.
pub struct DeveloperRule;

impl FormatterRule for DeveloperRule {
    open spec fn obeys_rule_spec(&self) -> bool {
        true
    }

    open spec fn spec_metadata(&self) -> RuleMetadata {
        builtin_metadata("DeveloperRule", RuleCategory::Developer, 870, regex_capabilities(true, false, false))
    }

    open spec fn spec_applies(&self, request: TransformationRequest) -> bool {
        wants_developer(request)
    }

    open spec fn rewrite(&self, text: Seq<char>, request: TransformationRequest) -> Seq<char> {
        spec_developer(text)
    }

    fn metadata(&self) -> (m: RuleMetadata) {
        builtin("DeveloperRule", RuleCategory::Developer, 870, streaming_regex_capabilities(true, false, false))
    }

    fn applies(&self, request: &TransformationRequest) -> (r: bool) {
        request.mode == FormattingMode::Developer || same_text(request.user_context.language.as_str(), "rust")
            || same_text(request.user_context.language.as_str(), "python")
    }

    fn apply(&self, state: &mut TransformationState, _request: &TransformationRequest)
        ensures
            logs_run(old(state).diagnostics@, final(state).diagnostics@, "DeveloperRule", old(state).current_text@, final(state).current_text@),
    {
        let started = instant_now();
        let before = state.current_text.clone();
        state.current_text = format_developer(state.current_text.as_str());
        finish_rule_run(state, "DeveloperRule", before, &started);
    }
}


/// Spoken operators are replaced longest phrase first: "less than or
/// equal(s)" becomes "<=" before "less than" becomes "<", and "greater than
/// or equal(s)" becomes ">=" before "greater than" becomes ">", so that a
/// longer operator is never cut short by the shorter one it starts with.
/// Each of the four is in the table once, with that replacement, and so are
/// "double equal(s)" as "==", "triple equal(s)" as "===", "not equal(s)" as
/// "!=", "forward slash" as "/" and "backslash" as a backslash.
pub proof fn lemma_operators_longest_first()
    ensures
        ({
            let t = operator_table();
            let le = r"(?i)\bless than or equal(?:s)?\b"@;
            let lt = r"(?i)\bless than\b"@;
            let ge = r"(?i)\bgreater than or equal(?:s)?\b"@;
            let gt = r"(?i)\bgreater than\b"@;
            &&& forall|i: int, j: int| 0 <= i < t.len() && 0 <= j < t.len() && #[trigger] t[i].0 == le && #[trigger] t[j].0 == lt ==> i < j
            &&& forall|i: int, j: int| 0 <= i < t.len() && 0 <= j < t.len() && #[trigger] t[i].0 == ge && #[trigger] t[j].0 == gt ==> i < j
            &&& exists|i: int| 0 <= i < t.len() && #[trigger] t[i] == (le, "<="@)
            &&& exists|i: int| 0 <= i < t.len() && #[trigger] t[i] == (lt, "<"@)
            &&& exists|i: int| 0 <= i < t.len() && #[trigger] t[i] == (ge, ">="@)
            &&& exists|i: int| 0 <= i < t.len() && #[trigger] t[i] == (gt, ">"@)
            &&& exists|i: int| 0 <= i < t.len() && #[trigger] t[i] == (r"(?i)\bdouble equal(?:s)?\b"@, "=="@)
            &&& exists|i: int| 0 <= i < t.len() && #[trigger] t[i] == (r"(?i)\btriple equal(?:s)?\b"@, "==="@)
            &&& exists|i: int| 0 <= i < t.len() && #[trigger] t[i] == (r"(?i)\bnot equal(?:s)?\b"@, "!="@)
            &&& exists|i: int| 0 <= i < t.len() && #[trigger] t[i] == (r"(?i)\bforward slash\b"@, "/"@)
            &&& exists|i: int| 0 <= i < t.len() && #[trigger] t[i] == (r"(?i)\bbackslash\b"@, "\\"@)
        }),
{
    reveal_strlit(r"(?i)\bdouble equal(?:s)?\b");
    reveal_strlit(r"(?i)\btriple equal(?:s)?\b");
    reveal_strlit(r"(?i)\bnot equal(?:s)?\b");
    reveal_strlit(r"(?i)\bgreater than or equal(?:s)?\b");
    reveal_strlit(r"(?i)\bless than or equal(?:s)?\b");
    reveal_strlit(r"(?i)\bgreater than\b");
    reveal_strlit(r"(?i)\bless than\b");
    reveal_strlit(r"(?i)\bforward slash\b");
    reveal_strlit(r"(?i)\bbackslash\b");
    let t = operator_table();
    assert(t[0] == (r"(?i)\bdouble equal(?:s)?\b"@, "=="@));
    assert(t[1] == (r"(?i)\btriple equal(?:s)?\b"@, "==="@));
    assert(t[2] == (r"(?i)\bnot equal(?:s)?\b"@, "!="@));
    assert(t[7] == (r"(?i)\bforward slash\b"@, "/"@));
    assert(t[8] == (r"(?i)\bbackslash\b"@, "\\"@));
    assert(t[3] == (r"(?i)\bgreater than or equal(?:s)?\b"@, ">="@));
    assert(t[4] == (r"(?i)\bless than or equal(?:s)?\b"@, "<="@));
    assert(t[5] == (r"(?i)\bgreater than\b"@, ">"@));
    assert(t[6] == (r"(?i)\bless than\b"@, "<"@));
    assert(t.len() == 9);
    assert forall|k: int| 0 <= k < t.len() && #[trigger] t[k].0 == r"(?i)\bless than or equal(?:s)?\b"@ implies k == 4 by {
        if k == 0 {
            assert(t[0].0[6] != r"(?i)\bless than or equal(?:s)?\b"@[6]);
        } else if k == 1 {
            assert(t[1].0[6] != r"(?i)\bless than or equal(?:s)?\b"@[6]);
        } else if k == 2 {
            assert(t[2].0[6] != r"(?i)\bless than or equal(?:s)?\b"@[6]);
        } else if k == 3 {
            assert(t[3].0[6] != r"(?i)\bless than or equal(?:s)?\b"@[6]);
        } else if k == 5 {
            assert(t[5].0[6] != r"(?i)\bless than or equal(?:s)?\b"@[6]);
        } else if k == 6 {
            assert(t[6].0.len() != r"(?i)\bless than or equal(?:s)?\b"@.len());
        } else if k == 7 {
            assert(t[7].0[6] != r"(?i)\bless than or equal(?:s)?\b"@[6]);
        } else if k == 8 {
            assert(t[8].0[6] != r"(?i)\bless than or equal(?:s)?\b"@[6]);
        }
    }
    assert forall|k: int| 0 <= k < t.len() && #[trigger] t[k].0 == r"(?i)\bless than\b"@ implies k == 6 by {
        if k == 0 {
            assert(t[0].0[6] != r"(?i)\bless than\b"@[6]);
        } else if k == 1 {
            assert(t[1].0[6] != r"(?i)\bless than\b"@[6]);
        } else if k == 2 {
            assert(t[2].0[6] != r"(?i)\bless than\b"@[6]);
        } else if k == 3 {
            assert(t[3].0[6] != r"(?i)\bless than\b"@[6]);
        } else if k == 4 {
            assert(t[4].0.len() != r"(?i)\bless than\b"@.len());
        } else if k == 5 {
            assert(t[5].0[6] != r"(?i)\bless than\b"@[6]);
        } else if k == 7 {
            assert(t[7].0[6] != r"(?i)\bless than\b"@[6]);
        } else if k == 8 {
            assert(t[8].0[6] != r"(?i)\bless than\b"@[6]);
        }
    }
    assert forall|k: int| 0 <= k < t.len() && #[trigger] t[k].0 == r"(?i)\bgreater than or equal(?:s)?\b"@ implies k == 3 by {
        if k == 0 {
            assert(t[0].0[6] != r"(?i)\bgreater than or equal(?:s)?\b"@[6]);
        } else if k == 1 {
            assert(t[1].0[6] != r"(?i)\bgreater than or equal(?:s)?\b"@[6]);
        } else if k == 2 {
            assert(t[2].0[6] != r"(?i)\bgreater than or equal(?:s)?\b"@[6]);
        } else if k == 4 {
            assert(t[4].0[6] != r"(?i)\bgreater than or equal(?:s)?\b"@[6]);
        } else if k == 5 {
            assert(t[5].0.len() != r"(?i)\bgreater than or equal(?:s)?\b"@.len());
        } else if k == 6 {
            assert(t[6].0[6] != r"(?i)\bgreater than or equal(?:s)?\b"@[6]);
        } else if k == 7 {
            assert(t[7].0[6] != r"(?i)\bgreater than or equal(?:s)?\b"@[6]);
        } else if k == 8 {
            assert(t[8].0[6] != r"(?i)\bgreater than or equal(?:s)?\b"@[6]);
        }
    }
    assert forall|k: int| 0 <= k < t.len() && #[trigger] t[k].0 == r"(?i)\bgreater than\b"@ implies k == 5 by {
        if k == 0 {
            assert(t[0].0[6] != r"(?i)\bgreater than\b"@[6]);
        } else if k == 1 {
            assert(t[1].0[6] != r"(?i)\bgreater than\b"@[6]);
        } else if k == 2 {
            assert(t[2].0[6] != r"(?i)\bgreater than\b"@[6]);
        } else if k == 3 {
            assert(t[3].0.len() != r"(?i)\bgreater than\b"@.len());
        } else if k == 4 {
            assert(t[4].0[6] != r"(?i)\bgreater than\b"@[6]);
        } else if k == 6 {
            assert(t[6].0[6] != r"(?i)\bgreater than\b"@[6]);
        } else if k == 7 {
            assert(t[7].0[6] != r"(?i)\bgreater than\b"@[6]);
        } else if k == 8 {
            assert(t[8].0[6] != r"(?i)\bgreater than\b"@[6]);
        }
    }
}

} // verus!
