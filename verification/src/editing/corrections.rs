//! Spoken editing commands and corrections applied to a transcript.
use vstd::prelude::*;

use super::context::{
    history_extends, lemma_history_extends_trans, lemma_history_push, make_operation, tagged,
    LogEntry, OperationKind, RewriteContext,
};
pub use super::inline::{
    pending_after, inline_log, resolve_inline_corrections, resolve_inline_corrections_with_context,
    spec_inline_corrections,
};
use super::repeats::{cut_false_starts, upper_first_ascii, upper_first_ascii_exec, without_false_starts};
use crate::matching::{
    captures_in, escape, group, group_at, last_match, regex_captures, span_end, span_start,
    spec_escape, spec_last_match, well_formed_groups, Groups,
};
use crate::text::{
    append, chars_of, is_uppercase, is_whitespace, skip_non_ws, skipped_non_ws, slice,
    spec_is_uppercase, spec_is_whitespace, spec_uppercase_char, string_of, char_to_uppercase, trim,
    trim_end, trim_start, trimmed, trimmed_end, trimmed_start,
};

verus! {

/// One `\w+` word.
pub const WORD: &'static str = r"\w+";

/// A run of sentence terminators.
pub const TERMINATORS: &'static str = r"[.?!]+";

/// A run of sentence terminators followed by whitespace.
pub const SENTENCE_BREAK: &'static str = r"[.?!]+\s+";

/// Start of a case-insensitive whole-word pattern.
pub const CASELESS_WORD_START: &'static str = r"(?i)\b";

/// End of a whole-word pattern.
pub const WORD_END: &'static str = r"\b";

/// "delete / remove (the) last / previous word", optionally after "please", "can you", "could you".
pub const DELETE_WORD_COMMAND: &'static str = r"(?i)(^|\s+|[.?!,]\s*)(?:(?:please|can\s+you|could\s+you)\s+)?(?:delete|remove)\s+(?:the\s+)?(?:last|previous)\s+word(\s*[.?!]+(?:\s+|$)|$)";

/// "delete / remove (the) last / previous sentence".
pub const DELETE_SENTENCE_COMMAND: &'static str = r"(?i)(^|\s+|[.?!,]\s*)(?:(?:please|can\s+you|could\s+you)\s+)?(?:delete|remove)\s+(?:the\s+)?(?:last|previous)\s+sentence(\s*[.?!]+(?:\s+|$)|$)";

/// "replace (the) last word with / to X".
pub const REPLACE_LAST_WORD_COMMAND: &'static str = r"(?i)(^|[.?!,]\s*)(?:(?:please|can\s+you|could\s+you)\s+)?replace\s+(?:the\s+)?last\s+word\s+(?:with|to)\s+([^.?!]+)(\s*[.?!]+(?:\s+|$)|$)";

/// "replace X with / to Y".
pub const REPLACE_COMMAND: &'static str = r"(?i)(^|[.?!,]\s*)(?:(?:please|can\s+you|could\s+you)\s+)?replace\s+([^.?!]+)\s+(?:with|to)\s+([^.?!]+)(\s*[.?!]+(?:\s+|$)|$)";

/// "cancel that", "never mind", "ignore that", "scratch that", as a sentence of its own.
pub const UNDO_COMMAND: &'static str = r"(?i)(^|\s+|[.?!,]\s*)(?:(?:please|can\s+you|could\s+you)\s+)?(cancel that|never mind|ignore that|scratch that)(?:\s*[.?!]+(?:\s+|$)|$)";

/// The spoken editing commands that rewrite the text before them.
#[derive(Clone, Copy, PartialEq, Eq, Structural)]
pub enum CommandRule {
    DeleteWord,
    DeleteSentence,
    ReplaceLastWord,
    Replace,
    Undo,
}

/// The pattern of a command.
pub open spec fn command_pattern(rule: CommandRule) -> Seq<char> {
    match rule {
        CommandRule::DeleteWord => DELETE_WORD_COMMAND@,
        CommandRule::DeleteSentence => DELETE_SENTENCE_COMMAND@,
        CommandRule::ReplaceLastWord => REPLACE_LAST_WORD_COMMAND@,
        CommandRule::Replace => REPLACE_COMMAND@,
        CommandRule::Undo => UNDO_COMMAND@,
    }
}

/// How many capture groups a command's rewrite reads.
pub open spec fn command_groups(rule: CommandRule) -> int {
    match rule {
        CommandRule::DeleteWord => 2,
        CommandRule::DeleteSentence => 2,
        CommandRule::ReplaceLastWord => 3,
        CommandRule::Replace => 4,
        CommandRule::Undo => 2,
    }
}

/// The kind under which a command's rewrites are logged.
pub open spec fn command_kind(rule: CommandRule) -> OperationKind {
    match rule {
        CommandRule::DeleteWord => OperationKind::DeleteCommand,
        CommandRule::DeleteSentence => OperationKind::DeleteLastSentence,
        CommandRule::ReplaceLastWord => OperationKind::ReplaceLastWord,
        CommandRule::Replace => OperationKind::ReplaceCommand,
        CommandRule::Undo => OperationKind::UndoCommand,
    }
}

/// The length of a group's span.
pub open spec fn span_len(o: Option<(usize, usize)>) -> int {
    span_end(o) - span_start(o)
}

/// A match that has groups 1 to `n`.
pub open spec fn command_match(g: Groups, r: Seq<char>, n: int) -> bool {
    &&& well_formed_groups(g, r.len())
    &&& forall|k: int| 1 <= k <= n ==> #[trigger] group(g, k) is Some
}

/// The text before a command: up to the end of its leading boundary (group 1).
pub open spec fn before_command(g: Groups, r: Seq<char>) -> Seq<char> {
    r.take(span_start(g[0]) + span_len(group(g, 1)))
}

/// The text of group `k`.
pub open spec fn group_text(g: Groups, r: Seq<char>, k: int) -> Seq<char> {
    r.subrange(span_start(group(g, k)), span_end(group(g, k)))
}

/// The text after the whole match.
pub open spec fn after_match(g: Groups, r: Seq<char>) -> Seq<char> {
    r.skip(span_end(g[0]))
}

/// `p` when it is not empty, `q` otherwise.
pub open spec fn or_else(p: Seq<char>, q: Seq<char>) -> Seq<char> {
    if p.len() > 0 {
        p
    } else {
        q
    }
}

/// `replacement`, with its first char uppercased when `word` starts with an uppercase char.
pub open spec fn match_case(word: Seq<char>, replacement: Seq<char>) -> Seq<char> {
    if word.len() > 0 && spec_is_uppercase(word[0]) && replacement.len() > 0 {
        spec_uppercase_char(replacement[0]) + replacement.drop_first()
    } else {
        replacement
    }
}

/// Whether `c` is whitespace or a sentence terminator.
pub open spec fn is_ws_or_terminator(c: char) -> bool {
    spec_is_whitespace(c) || c == '.' || c == '?' || c == '!'
}

/// The text without trailing whitespace and sentence terminators.
pub open spec fn trim_end_terminators(s: Seq<char>) -> Seq<char>
    decreases s.len(),
{
    if s.len() > 0 && is_ws_or_terminator(s.last()) {
        trim_end_terminators(s.drop_last())
    } else {
        s
    }
}

/// The pattern that finds `word` as a whole word, ignoring case.
pub open spec fn whole_word_pattern(word: Seq<char>) -> Seq<char> {
    CASELESS_WORD_START@ + spec_escape(word) + WORD_END@
}

/// One rewrite of a command found in `r`: the new text, and whether it is logged.
pub open spec fn command_step(rule: CommandRule, r: Seq<char>) -> Option<(Seq<char>, bool)> {
    match regex_captures(command_pattern(rule), r) {
        Some(g) => if command_match(g, r, command_groups(rule)) {
            command_rewrite(rule, g, r)
        } else {
            None
        },
        None => None,
    }
}

/// The rewrite of a command at match `g` of `r`.
pub open spec fn command_rewrite(rule: CommandRule, g: Groups, r: Seq<char>) -> Option<(Seq<char>, bool)> {
    let bc = before_command(g, r);
    let after = after_match(g, r);
    match rule {
        CommandRule::DeleteWord => {
            let suffix = group_text(g, r, 2);
            match spec_last_match(WORD@, bc) {
                Some((ls, le)) => Some((
                    trim_end(bc.take(ls as int)) + or_else(trim_end(bc.skip(le as int)), trim(suffix))
                        + skip_non_ws(suffix) + after,
                    true,
                )),
                None => Some((bc + trim_start(suffix) + after, false)),
            }
        },
        CommandRule::DeleteSentence => {
            let kept = match spec_last_match(TERMINATORS@, trim_end_terminators(bc)) {
                Some((_, e)) => bc.take(bc.len() - trim_start(bc.skip(e as int)).len()),
                None => Seq::empty(),
            };
            Some((kept + after, true))
        },
        CommandRule::ReplaceLastWord => {
            let replacement = group_text(g, r, 2);
            let suffix = group_text(g, r, 3);
            match spec_last_match(WORD@, bc) {
                Some((ls, le)) => Some((
                    bc.take(ls as int) + match_case(bc.subrange(ls as int, le as int), replacement)
                        + or_else(trim_end(bc.skip(le as int)), trim(suffix)) + skip_non_ws(suffix)
                        + after,
                    true,
                )),
                None => Some((bc + trim_start(suffix) + after, false)),
            }
        },
        CommandRule::Replace => {
            let target = group_text(g, r, 2);
            let replacement = group_text(g, r, 3);
            let suffix = group_text(g, r, 4);
            match spec_last_match(whole_word_pattern(target), bc) {
                Some((ls, le)) => Some((
                    bc.take(ls as int) + match_case(bc.subrange(ls as int, le as int), replacement)
                        + or_else(trim_end(bc.skip(le as int)), trim_start(suffix)) + after,
                    true,
                )),
                None => None,
            }
        },
        CommandRule::Undo => {
            let search_end = trim_end(r.take(span_end(group(g, 1)))).len();
            let start = if search_end > 0 {
                match spec_last_match(SENTENCE_BREAK@, r.take(search_end as int)) {
                    Some((_, e)) => e as int,
                    None => 0,
                }
            } else {
                0
            };
            Some((r.take(start) + after, true))
        },
    }
}

/// Repeats a command's rewrite while it shortens the text; gives the final
/// text and the (before, after) texts of each logged rewrite.
pub open spec fn command_run(rule: CommandRule, r: Seq<char>) -> (Seq<char>, Seq<(Seq<char>, Seq<char>)>)
    decreases r.len(),
{
    match command_step(rule, r) {
        Some((n, logged)) => if n.len() < r.len() {
            let rest = command_run(rule, n);
            (rest.0, if logged { seq![(r, n)] + rest.1 } else { rest.1 })
        } else {
            (r, seq![])
        },
        None => (r, seq![]),
    }
}

/// Every rewrite that a command logs makes the text shorter, and the run
/// ends no longer than it began.
pub proof fn lemma_command_run_shortens(rule: CommandRule, r: Seq<char>)
    ensures
        command_run(rule, r).0.len() <= r.len(),
        forall|k: int| 0 <= k < command_run(rule, r).1.len()
            ==> (#[trigger] command_run(rule, r).1[k]).1.len() < command_run(rule, r).1[k].0.len(),
    decreases r.len(),
{
    match command_step(rule, r) {
        Some((n, logged)) => if n.len() < r.len() {
            lemma_command_run_shortens(rule, n);
            let rest = command_run(rule, n);
            if logged {
                let log = seq![(r, n)] + rest.1;
                assert forall|k: int| 0 <= k < log.len() implies (#[trigger] log[k]).1.len() < log[k].0.len() by {
                    if k > 0 {
                        assert(log[k] == rest.1[k - 1]);
                    }
                }
            }
        },
        None => {},
    }
}

/// When a command's pattern finds nothing, its resolver only trims the
/// text and logs nothing.
pub proof fn lemma_no_command_only_trims(rule: CommandRule, text: Seq<char>)
    requires
        regex_captures(command_pattern(rule), text) is None,
    ensures
        resolve_command(rule, text) == trim(text),
        command_run(rule, text).1 == Seq::<(Seq<char>, Seq<char>)>::empty(),
{
}

/// What a resolver of `rule` returns for `text`.
pub open spec fn resolve_command(rule: CommandRule, text: Seq<char>) -> Seq<char> {
    trim(command_run(rule, text).0)
}

} // verus!

verus! {

fn pattern_of(rule: CommandRule) -> (p: &'static str)
    ensures
        p@ == command_pattern(rule),
{
    match rule {
        CommandRule::DeleteWord => DELETE_WORD_COMMAND,
        CommandRule::DeleteSentence => DELETE_SENTENCE_COMMAND,
        CommandRule::ReplaceLastWord => REPLACE_LAST_WORD_COMMAND,
        CommandRule::Replace => REPLACE_COMMAND,
        CommandRule::Undo => UNDO_COMMAND,
    }
}

fn groups_of(rule: CommandRule) -> (n: usize)
    ensures
        n == command_groups(rule),
        n <= 8,
{
    match rule {
        CommandRule::DeleteWord => 2,
        CommandRule::DeleteSentence => 2,
        CommandRule::ReplaceLastWord => 3,
        CommandRule::Replace => 4,
        CommandRule::Undo => 2,
    }
}

/// Whether groups 1 to `n` all took part in the match.
fn groups_present(g: &Vec<Option<(usize, usize)>>, n: usize) -> (r: bool)
    requires
        n <= 8,
    ensures
        r == (forall|k: int| 1 <= k <= n ==> #[trigger] group(g@, k) is Some),
{
    let mut k: usize = 1;
    while k <= n
        invariant
            1 <= k <= n + 1,
            n <= 8,
            forall|j: int| 1 <= j < k ==> #[trigger] group(g@, j) is Some,
        decreases n + 1 - k,
    {
        match group_at(g, k) {
            Some(_) => {},
            None => return false,
        }
        k += 1;
    }
    true
}

/// The span of a group that took part in a well formed match.
fn span_of(g: &Vec<Option<(usize, usize)>>, k: usize, Ghost(len): Ghost<nat>) -> (s: (usize, usize))
    requires
        well_formed_groups(g@, len),
        group(g@, k as int) is Some,
    ensures
        s.0 == span_start(group(g@, k as int)),
        s.1 == span_end(group(g@, k as int)),
        span_start(g@[0]) <= s.0 <= s.1 <= span_end(g@[0]) <= len,
{
    proof {
        assert(g@[k as int] == group(g@, k as int));
    }
    match g[k] {
        Some(s) => s,
        None => (0, 0),
    }
}

/// The parts of a command match that every rewrite reads: the text before
/// the command, and the text after the whole match.
fn command_parts(g: &Vec<Option<(usize, usize)>>, r: &Vec<char>) -> (parts: (Vec<char>, Vec<char>))
    requires
        command_match(g@, r@, 1),
    ensures
        parts.0@ == before_command(g@, r@),
        parts.1@ == after_match(g@, r@),
{
    let whole = span_of(g, 0, Ghost(r@.len()));
    let pre = span_of(g, 1, Ghost(r@.len()));
    proof {
        assert(group(g@, 0) == g@[0]);
    }
    let bc = slice(r, 0, whole.0 + (pre.1 - pre.0));
    let after = slice(r, whole.1, r.len());
    proof {
        assert(bc@ =~= before_command(g@, r@));
        assert(after@ =~= after_match(g@, r@));
    }
    (bc, after)
}

/// The text of group `k`.
fn group_chars(g: &Vec<Option<(usize, usize)>>, r: &Vec<char>, k: usize) -> (t: Vec<char>)
    requires
        well_formed_groups(g@, r@.len()),
        group(g@, k as int) is Some,
    ensures
        t@ == group_text(g@, r@, k as int),
{
    let s = span_of(g, k, Ghost(r@.len()));
    slice(r, s.0, s.1)
}

/// `replacement` with its first char uppercased when `word` starts uppercase.
fn match_case_exec(word: &[char], replacement: &[char]) -> (r: Vec<char>)
    ensures
        r@ == match_case(word@, replacement@),
{
    if word.len() > 0 && is_uppercase(word[0]) && replacement.len() > 0 {
        let up = char_to_uppercase(replacement[0]);
        let mut out = chars_of(up.as_str());
        let rest = slice(replacement, 1, replacement.len());
        append(&mut out, &rest);
        proof {
            assert(rest@ =~= replacement@.drop_first());
        }
        out
    } else {
        slice(replacement, 0, replacement.len())
    }
}

/// One past the last char that is neither whitespace nor a sentence terminator.
pub(crate) fn trim_end_terminators_index(v: &[char]) -> (r: usize)
    ensures
        r <= v@.len(),
        v@.take(r as int) == trim_end_terminators(v@),
{
    let mut i: usize = v.len();
    proof {
        assert(v@.take(v@.len() as int) =~= v@);
    }
    while i > 0 && (is_whitespace(v[i - 1]) || v[i - 1] == '.' || v[i - 1] == '?' || v[i - 1] == '!')
        invariant
            i <= v@.len(),
            trim_end_terminators(v@) == trim_end_terminators(v@.take(i as int)),
        decreases i,
    {
        proof {
            assert(v@.take(i as int).drop_last() =~= v@.take(i - 1));
        }
        i -= 1;
    }
    proof {
        if i > 0 {
            assert(v@.take(i as int).last() == v@[i - 1]);
        }
    }
    i
}

/// The pattern that finds `word` as a whole word, ignoring case.
fn whole_word_pattern_exec(word: &[char]) -> (p: String)
    ensures
        p@ == whole_word_pattern(word@),
{
    let w = string_of(word);
    let esc = escape(w.as_str());
    let mut v = chars_of(CASELESS_WORD_START);
    let e = chars_of(esc.as_str());
    append(&mut v, &e);
    let end = chars_of(WORD_END);
    append(&mut v, &end);
    string_of(&v)
}

fn delete_word_rewrite(g: &Vec<Option<(usize, usize)>>, r: &Vec<char>) -> (res: Option<(Vec<char>, bool)>)
    requires
        command_match(g@, r@, 2),
    ensures
        opt_step_view(res) == command_rewrite(CommandRule::DeleteWord, g@, r@),
{
    let (bc, after) = command_parts(g, r);
    let suffix = group_chars(g, r, 2);
    match last_match(WORD, &bc) {
        Some((ls, le)) => {
            let head = slice(&bc, 0, ls);
            let mut out = trimmed_end(&head);
            let tail = slice(&bc, le, bc.len());
            let p = trimmed_end(&tail);
            if p.len() > 0 {
                append(&mut out, &p);
            } else {
                let s = trimmed(&suffix);
                append(&mut out, &s);
            }
            let trailing = skipped_non_ws(&suffix);
            append(&mut out, &trailing);
            append(&mut out, &after);
            proof {
                assert(head@ =~= bc@.take(ls as int));
                assert(tail@ =~= bc@.skip(le as int));
            }
            Some((out, true))
        },
        None => {
            let mut out = bc;
            let s = trimmed_start(&suffix);
            append(&mut out, &s);
            append(&mut out, &after);
            Some((out, false))
        },
    }
}

fn delete_sentence_rewrite(g: &Vec<Option<(usize, usize)>>, r: &Vec<char>) -> (res: Option<(Vec<char>, bool)>)
    requires
        command_match(g@, r@, 2),
    ensures
        opt_step_view(res) == command_rewrite(CommandRule::DeleteSentence, g@, r@),
{
    let (bc, after) = command_parts(g, r);
    let t_end = trim_end_terminators_index(&bc);
    let t = slice(&bc, 0, t_end);
    let mut out = match last_match(TERMINATORS, &t) {
        Some((_, e)) => {
            let rest = slice(&bc, e, bc.len());
            let skip = trim_start_len(&rest);
            proof {
                assert(rest@ =~= bc@.skip(e as int));
            }
            slice(&bc, 0, bc.len() - skip)
        },
        None => Vec::new(),
    };
    append(&mut out, &after);
    Some((out, true))
}

/// The length of the text once leading whitespace is removed.
pub(crate) fn trim_start_len(v: &[char]) -> (n: usize)
    ensures
        n == trim_start(v@).len(),
        n <= v@.len(),
{
    let i = crate::text::trim_start_index(v);
    v.len() - i
}

fn replace_last_word_rewrite(g: &Vec<Option<(usize, usize)>>, r: &Vec<char>) -> (res: Option<(Vec<char>, bool)>)
    requires
        command_match(g@, r@, 3),
    ensures
        opt_step_view(res) == command_rewrite(CommandRule::ReplaceLastWord, g@, r@),
{
    let (bc, after) = command_parts(g, r);
    let replacement = group_chars(g, r, 2);
    let suffix = group_chars(g, r, 3);
    match last_match(WORD, &bc) {
        Some((ls, le)) => {
            let mut out = slice(&bc, 0, ls);
            let word = slice(&bc, ls, le);
            let cased = match_case_exec(&word, &replacement);
            append(&mut out, &cased);
            let tail = slice(&bc, le, bc.len());
            let p = trimmed_end(&tail);
            if p.len() > 0 {
                append(&mut out, &p);
            } else {
                let s = trimmed(&suffix);
                append(&mut out, &s);
            }
            let trailing = skipped_non_ws(&suffix);
            append(&mut out, &trailing);
            append(&mut out, &after);
            proof {
                assert(tail@ =~= bc@.skip(le as int));
            }
            Some((out, true))
        },
        None => {
            let mut out = bc;
            let s = trimmed_start(&suffix);
            append(&mut out, &s);
            append(&mut out, &after);
            Some((out, false))
        },
    }
}

fn replace_rewrite(g: &Vec<Option<(usize, usize)>>, r: &Vec<char>) -> (res: Option<(Vec<char>, bool)>)
    requires
        command_match(g@, r@, 4),
    ensures
        opt_step_view(res) == command_rewrite(CommandRule::Replace, g@, r@),
{
    let (bc, after) = command_parts(g, r);
    let target = group_chars(g, r, 2);
    let replacement = group_chars(g, r, 3);
    let suffix = group_chars(g, r, 4);
    let pattern = whole_word_pattern_exec(&target);
    match last_match(pattern.as_str(), &bc) {
        Some((ls, le)) => {
            let mut out = slice(&bc, 0, ls);
            let word = slice(&bc, ls, le);
            let cased = match_case_exec(&word, &replacement);
            append(&mut out, &cased);
            let tail = slice(&bc, le, bc.len());
            let p = trimmed_end(&tail);
            if p.len() > 0 {
                append(&mut out, &p);
            } else {
                let s = trimmed_start(&suffix);
                append(&mut out, &s);
            }
            append(&mut out, &after);
            proof {
                assert(tail@ =~= bc@.skip(le as int));
            }
            Some((out, true))
        },
        None => None,
    }
}

fn undo_rewrite(g: &Vec<Option<(usize, usize)>>, r: &Vec<char>) -> (res: Option<(Vec<char>, bool)>)
    requires
        command_match(g@, r@, 2),
    ensures
        opt_step_view(res) == command_rewrite(CommandRule::Undo, g@, r@),
{
    let (_, after) = command_parts(g, r);
    let pre = span_of(g, 1, Ghost(r@.len()));
    let upto = slice(r, 0, pre.1);
    let search_end = crate::text::trim_end_index(&upto);
    let start = if search_end > 0 {
        let before = slice(r, 0, search_end);
        proof {
            assert(before@ =~= r@.take(search_end as int));
        }
        match last_match(SENTENCE_BREAK, &before) {
            Some((_, e)) => e,
            None => 0,
        }
    } else {
        0
    };
    let mut out = slice(r, 0, start);
    append(&mut out, &after);
    Some((out, true))
}

pub open spec fn opt_step_view(res: Option<(Vec<char>, bool)>) -> Option<(Seq<char>, bool)> {
    match res {
        Some((n, l)) => Some((n@, l)),
        None => None,
    }
}

fn command_step_exec(rule: CommandRule, r: &Vec<char>) -> (res: Option<(Vec<char>, bool)>)
    ensures
        opt_step_view(res) == command_step(rule, r@),
{
    let caps = match captures_in(pattern_of(rule), r) {
        Some(c) => c,
        None => return None,
    };
    if !groups_present(&caps, groups_of(rule)) {
        return None;
    }
    match rule {
        CommandRule::DeleteWord => delete_word_rewrite(&caps, r),
        CommandRule::DeleteSentence => delete_sentence_rewrite(&caps, r),
        CommandRule::ReplaceLastWord => replace_last_word_rewrite(&caps, r),
        CommandRule::Replace => replace_rewrite(&caps, r),
        CommandRule::Undo => undo_rewrite(&caps, r),
    }
}

/// Applies a command's rewrites until it finds no more, logging them in `context`.
fn run_command(rule: CommandRule, text: &[char], context: &mut RewriteContext) -> (out: Vec<char>)
    ensures
        out@ == command_run(rule, text@).0,
        history_extends(old(context).history@, final(context).history@, tagged(command_kind(rule), command_run(rule, text@).1)),
        final(context).pending_correction == old(context).pending_correction,
{
    let mut resolved = slice(text, 0, text.len());
    let ghost mut trace: Seq<(Seq<char>, Seq<char>)> = seq![];
    proof {
        assert(text@.subrange(0, text@.len() as int) =~= text@);
        assert(tagged(command_kind(rule), trace) =~= Seq::empty());
    }
    loop
        invariant
            command_run(rule, text@).0 == command_run(rule, resolved@).0,
            command_run(rule, text@).1 == trace + command_run(rule, resolved@).1,
            history_extends(old(context).history@, context.history@, tagged(command_kind(rule), trace)),
            context.pending_correction == old(context).pending_correction,
        ensures
            command_run(rule, resolved@).0 == resolved@,
            command_run(rule, resolved@).1.len() == 0,
        decreases resolved@.len(),
    {
        match command_step_exec(rule, &resolved) {
            Some((next, logged)) => {
                if next.len() >= resolved.len() {
                    break;
                }
                let ghost prev = resolved@;
                if logged {
                    let op = make_operation(kind_of(rule), &resolved, &next);
                    proof {
                        lemma_history_push(old(context).history@, context.history@, tagged(command_kind(rule), trace), op, (command_kind(rule), prev, next@));
                        assert(tagged(command_kind(rule), trace).push((command_kind(rule), prev, next@)) =~= tagged(command_kind(rule), trace.push((prev, next@))));
                    }
                    context.history.push(op);
                    proof {
                        trace = trace.push((prev, next@));
                        assert(command_run(rule, prev).1 =~= seq![(prev, next@)] + command_run(rule, next@).1);
                    }
                }
                proof {
                    assert(command_run(rule, text@).1 =~= trace + command_run(rule, next@).1);
                }
                resolved = next;
            },
            None => break,
        }
    }
    resolved
}

fn kind_of(rule: CommandRule) -> (k: OperationKind)
    ensures
        k == command_kind(rule),
{
    match rule {
        CommandRule::DeleteWord => OperationKind::DeleteCommand,
        CommandRule::DeleteSentence => OperationKind::DeleteLastSentence,
        CommandRule::ReplaceLastWord => OperationKind::ReplaceLastWord,
        CommandRule::Replace => OperationKind::ReplaceCommand,
        CommandRule::Undo => OperationKind::UndoCommand,
    }
}

/// Applies a command's rewrites until none is left, logs them, and trims the result.
fn resolve_with(rule: CommandRule, text: &str, context: &mut RewriteContext) -> (r: String)
    ensures
        r@ == resolve_command(rule, text@),
        history_extends(old(context).history@, final(context).history@, tagged(command_kind(rule), command_run(rule, text@).1)),
        final(context).pending_correction == old(context).pending_correction,
{
    let chars = chars_of(text);
    let out = run_command(rule, &chars, context);
    let t = trimmed(&out);
    string_of(&t)
}

/// Resolves "delete (the) last / previous word" commands: each removes the
/// last word before it (keeping the punctuation after that word, or the
/// command's own), and the result is trimmed.
pub fn resolve_delete_last_word_with_context(text: &str, context: &mut RewriteContext) -> (r: String)
    ensures
        r@ == resolve_command(CommandRule::DeleteWord, text@),
        history_extends(old(context).history@, final(context).history@, tagged(OperationKind::DeleteCommand, command_run(CommandRule::DeleteWord, text@).1)),
        final(context).pending_correction == old(context).pending_correction,
{
    resolve_with(CommandRule::DeleteWord, text, context)
}

pub fn resolve_delete_last_word(text: &str) -> (r: String)
    ensures
        r@ == resolve_command(CommandRule::DeleteWord, text@),
{
    let mut context = RewriteContext::new();
    resolve_delete_last_word_with_context(text, &mut context)
}

/// Resolves "delete (the) last / previous sentence" commands: each removes
/// the sentence before it, and the result is trimmed.
pub fn resolve_delete_last_sentence_with_context(text: &str, context: &mut RewriteContext) -> (r: String)
    ensures
        r@ == resolve_command(CommandRule::DeleteSentence, text@),
        history_extends(old(context).history@, final(context).history@, tagged(OperationKind::DeleteLastSentence, command_run(CommandRule::DeleteSentence, text@).1)),
        final(context).pending_correction == old(context).pending_correction,
{
    resolve_with(CommandRule::DeleteSentence, text, context)
}

pub fn resolve_delete_last_sentence(text: &str) -> (r: String)
    ensures
        r@ == resolve_command(CommandRule::DeleteSentence, text@),
{
    let mut context = RewriteContext::new();
    resolve_delete_last_sentence_with_context(text, &mut context)
}

/// Resolves "replace (the) last word with X" commands: each puts X (with the
/// replaced word's leading capital) in place of the last word before it.
pub fn resolve_replace_last_word_with_context(text: &str, context: &mut RewriteContext) -> (r: String)
    ensures
        r@ == resolve_command(CommandRule::ReplaceLastWord, text@),
        history_extends(old(context).history@, final(context).history@, tagged(OperationKind::ReplaceLastWord, command_run(CommandRule::ReplaceLastWord, text@).1)),
        final(context).pending_correction == old(context).pending_correction,
{
    resolve_with(CommandRule::ReplaceLastWord, text, context)
}

pub fn resolve_replace_last_word(text: &str) -> (r: String)
    ensures
        r@ == resolve_command(CommandRule::ReplaceLastWord, text@),
{
    let mut context = RewriteContext::new();
    resolve_replace_last_word_with_context(text, &mut context)
}

/// Resolves "replace X with Y" commands: each puts Y in place of the last
/// whole-word occurrence of X before it; a command whose X does not occur
/// before it stops the resolution and stays in the text.
pub fn resolve_basic_replace_with_context(text: &str, context: &mut RewriteContext) -> (r: String)
    ensures
        r@ == resolve_command(CommandRule::Replace, text@),
        history_extends(old(context).history@, final(context).history@, tagged(OperationKind::ReplaceCommand, command_run(CommandRule::Replace, text@).1)),
        final(context).pending_correction == old(context).pending_correction,
{
    resolve_with(CommandRule::Replace, text, context)
}

pub fn resolve_basic_replace(text: &str) -> (r: String)
    ensures
        r@ == resolve_command(CommandRule::Replace, text@),
{
    let mut context = RewriteContext::new();
    resolve_basic_replace_with_context(text, &mut context)
}

/// Resolves "cancel that", "never mind", "ignore that", "scratch that": each
/// removes itself and the sentence before it.
pub fn resolve_undo_commands_with_context(text: &str, context: &mut RewriteContext) -> (r: String)
    ensures
        r@ == resolve_command(CommandRule::Undo, text@),
        history_extends(old(context).history@, final(context).history@, tagged(OperationKind::UndoCommand, command_run(CommandRule::Undo, text@).1)),
        final(context).pending_correction == old(context).pending_correction,
{
    resolve_with(CommandRule::Undo, text, context)
}

pub fn resolve_undo_commands(text: &str) -> (r: String)
    ensures
        r@ == resolve_command(CommandRule::Undo, text@),
{
    let mut context = RewriteContext::new();
    resolve_undo_commands_with_context(text, &mut context)
}

} // verus!

verus! {

/// What `resolve_false_starts` returns: the text without its aborted runs,
/// with the first letter ASCII-uppercased and surrounding whitespace trimmed;
/// the text itself when nothing was aborted.
pub open spec fn spec_false_starts(text: Seq<char>) -> Seq<char> {
    match without_false_starts(text, false) {
        Some(kept) => trim_end(upper_first_ascii(trim_start(kept))),
        None => text,
    }
}

/// The log entry of a false-start recovery that changed the text.
pub open spec fn false_start_log(text: Seq<char>) -> Seq<(Seq<char>, Seq<char>)> {
    if spec_false_starts(text) != text {
        seq![(text, spec_false_starts(text))]
    } else {
        seq![]
    }
}

/// Drops false starts: a run of words said again shortly after is removed
/// up to the repeat ("Let's schedule a meeting. Let's schedule a call" keeps
/// the second attempt); logs the recovery when it changed the text.
pub fn resolve_false_starts_with_context(text: &str, context: &mut RewriteContext) -> (r: String)
    ensures
        r@ == spec_false_starts(text@),
        history_extends(old(context).history@, final(context).history@, tagged(OperationKind::FalseStartRecovery, false_start_log(text@))),
        final(context).pending_correction == old(context).pending_correction,
{
    let chars = chars_of(text);
    match cut_false_starts(&chars, false) {
        Some(kept) => {
            let mut t = trimmed_start(&kept);
            upper_first_ascii_exec(&mut t);
            let out = trimmed_end(&t);
            if !crate::text::chars_eq(&out, &chars) {
                let op = make_operation(OperationKind::FalseStartRecovery, &chars, &out);
                proof {
                    lemma_history_push(old(context).history@, context.history@, Seq::empty(), op, (OperationKind::FalseStartRecovery, text@, out@));
                    assert(Seq::<LogEntry>::empty().push((OperationKind::FalseStartRecovery, text@, out@)) =~= tagged(OperationKind::FalseStartRecovery, false_start_log(text@)));
                }
                context.history.push(op);
            } else {
                proof {
                    assert(tagged(OperationKind::FalseStartRecovery, false_start_log(text@)) =~= Seq::empty());
                }
            }
            string_of(&out)
        },
        None => {
            proof {
                assert(tagged(OperationKind::FalseStartRecovery, false_start_log(text@)) =~= Seq::empty());
            }
            text.to_owned()
        },
    }
}

/// Drops false starts with a fresh context.
pub fn resolve_false_starts(text: &str) -> (r: String)
    ensures
        r@ == spec_false_starts(text@),
{
    let mut context = RewriteContext::new();
    resolve_false_starts_with_context(text, &mut context)
}

/// The texts after each stage of the spoken-edit pipeline: false starts,
/// inline corrections, undo, replace, replace last word, delete last
/// sentence, delete last word.
pub open spec fn tier1_stages(text: Seq<char>) -> Seq<Seq<char>> {
    let s1 = spec_false_starts(text);
    let s2 = spec_inline_corrections(s1);
    let s3 = resolve_command(CommandRule::Undo, s2);
    let s4 = resolve_command(CommandRule::Replace, s3);
    let s5 = resolve_command(CommandRule::ReplaceLastWord, s4);
    let s6 = resolve_command(CommandRule::DeleteSentence, s5);
    let s7 = resolve_command(CommandRule::DeleteWord, s6);
    seq![text, s1, s2, s3, s4, s5, s6, s7]
}

/// What `resolve_all_tier1` returns.
pub open spec fn spec_all_tier1(text: Seq<char>) -> Seq<char> {
    tier1_stages(text)[7]
}

/// Everything the spoken-edit pipeline logs, stage by stage.
pub open spec fn tier1_log(text: Seq<char>) -> Seq<LogEntry> {
    let s = tier1_stages(text);
    tagged(OperationKind::FalseStartRecovery, false_start_log(s[0]))
        + tagged(OperationKind::InlineCorrection, inline_log(s[1]))
        + tagged(OperationKind::UndoCommand, command_run(CommandRule::Undo, s[2]).1)
        + tagged(OperationKind::ReplaceCommand, command_run(CommandRule::Replace, s[3]).1)
        + tagged(OperationKind::ReplaceLastWord, command_run(CommandRule::ReplaceLastWord, s[4]).1)
        + tagged(OperationKind::DeleteLastSentence, command_run(CommandRule::DeleteSentence, s[5]).1)
        + tagged(OperationKind::DeleteCommand, command_run(CommandRule::DeleteWord, s[6]).1)
}

/// Runs every spoken-edit resolver in order, logging into `context`.
pub fn resolve_all_tier1_with_context(text: &str, context: &mut RewriteContext) -> (r: String)
    ensures
        r@ == spec_all_tier1(text@),
        history_extends(old(context).history@, final(context).history@, tier1_log(text@)),
        pending_after(tier1_stages(text@)[1], old(context).pending_correction, final(context).pending_correction),
{
    let ghost s = tier1_stages(text@);
    let ghost h0 = context.history@;
    let r1 = resolve_false_starts_with_context(text, context);
    let ghost h1 = context.history@;
    let ghost p1 = context.pending_correction;
    let r2 = resolve_inline_corrections_with_context(r1.as_str(), context);
    let ghost h2 = context.history@;
    let ghost p2 = context.pending_correction;
    let r3 = resolve_undo_commands_with_context(r2.as_str(), context);
    let ghost h3 = context.history@;
    let r4 = resolve_basic_replace_with_context(r3.as_str(), context);
    let ghost h4 = context.history@;
    let r5 = resolve_replace_last_word_with_context(r4.as_str(), context);
    let ghost h5 = context.history@;
    let r6 = resolve_delete_last_sentence_with_context(r5.as_str(), context);
    let ghost h6 = context.history@;
    let r7 = resolve_delete_last_word_with_context(r6.as_str(), context);
    proof {
        let e1 = tagged(OperationKind::FalseStartRecovery, false_start_log(s[0]));
        let e2 = tagged(OperationKind::InlineCorrection, inline_log(s[1]));
        let e3 = tagged(OperationKind::UndoCommand, command_run(CommandRule::Undo, s[2]).1);
        let e4 = tagged(OperationKind::ReplaceCommand, command_run(CommandRule::Replace, s[3]).1);
        let e5 = tagged(OperationKind::ReplaceLastWord, command_run(CommandRule::ReplaceLastWord, s[4]).1);
        let e6 = tagged(OperationKind::DeleteLastSentence, command_run(CommandRule::DeleteSentence, s[5]).1);
        let e7 = tagged(OperationKind::DeleteCommand, command_run(CommandRule::DeleteWord, s[6]).1);
        lemma_history_extends_trans(h0, h1, h2, e1, e2);
        lemma_history_extends_trans(h0, h2, h3, e1 + e2, e3);
        lemma_history_extends_trans(h0, h3, h4, e1 + e2 + e3, e4);
        lemma_history_extends_trans(h0, h4, h5, e1 + e2 + e3 + e4, e5);
        lemma_history_extends_trans(h0, h5, h6, e1 + e2 + e3 + e4 + e5, e6);
        lemma_history_extends_trans(h0, h6, context.history@, e1 + e2 + e3 + e4 + e5 + e6, e7);
    }
    r7
}

/// Runs every spoken-edit resolver in order with a fresh context.
pub fn resolve_all_tier1(text: &str) -> (r: String)
    ensures
        r@ == spec_all_tier1(text@),
{
    let mut context = RewriteContext::new();
    resolve_all_tier1_with_context(text, &mut context)
}

} // verus!
