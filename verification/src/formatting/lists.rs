//! "Convert to bullet list": the sentence before the command becomes a list.
use vstd::prelude::*;

use super::metadata::{builtin, builtin_metadata, regex_capabilities, streaming_regex_capabilities, RuleCategory, RuleMetadata};
use super::traits::{finish_rule_run, logs_run, FormatterRule};
use crate::clock::instant_now;
use crate::editing::corrections::{trim_end_terminators, trim_end_terminators_index, trim_start_len, TERMINATORS};
use crate::matching::{
    captures_all_in, captures_in, group, group_at, last_match, matches_view, regex_captures,
    regex_captures_all, span_end, span_start, spec_last_match, well_formed_groups, well_formed_matches,
    Groups,
};
use crate::pipeline::models::{TransformationRequest, TransformationState};
use crate::text::{
    append, chars_of, contains, contains_seq, join, join_with, slice, string_of, trim, trim_end,
    trim_start, trimmed, trimmed_end, trimmed_start, words_view,
};

verus! {

/// "(please / can you / could you) convert to (a) bullet(ed) list", after a
/// boundary (group 1) and before its closing marks (group 2).
pub const BULLET_COMMAND: &'static str = r"(?i)(^|\s+|[.?!,]\s*)(?:(?:please|can\s+you|could\s+you)\s+)?convert\s+to\s+(?:a\s+)?(?:bullet|bulleted)\s+list(\s*[.?!]+(?:\s+|$)|$)";

/// What separates list items: a comma, "and", or both.
pub const ITEM_SEPARATOR: &'static str = r"(?i)(?:,\s*and\s+|,\s*|\s+and\s+)";

/// The pieces of `text` between the matches `ms` (what `Regex::split` gives).
pub open spec fn split_pieces(text: Seq<char>, ms: Seq<Groups>) -> Seq<Seq<char>>
    decreases ms.len(),
{
    if ms.len() == 0 {
        seq![text]
    } else {
        split_pieces(text.take(span_start(ms.last()[0])), ms.drop_last()).push(text.skip(span_end(ms.last()[0])))
    }
}

/// The non-blank items of a list body, in order.
pub open spec fn list_items(content: Seq<char>) -> Seq<Seq<char>> {
    split_pieces(content, regex_captures_all(ITEM_SEPARATOR@, content)).filter(|p: Seq<char>| trim(p).len() > 0)
}

/// The items as bullet lines: "- " and the trimmed item, one per line.
pub open spec fn bullet_lines(items: Seq<Seq<char>>) -> Seq<char> {
    join(items.map_values(|p: Seq<char>| "- "@ + trim(p)), "\n"@)
}

/// The index of the first ':' in `s`.
pub open spec fn first_colon(s: Seq<char>) -> Option<int>
    decreases s.len(),
{
    if s.len() == 0 {
        None
    } else {
        match first_colon(s.drop_last()) {
            Some(i) => Some(i),
            None => if s.last() == ':' {
                Some(s.len() - 1)
            } else {
                None
            },
        }
    }
}

/// Where the sentence before a command starts: after the last run of
/// sentence terminators and the whitespace that follows it.
pub open spec fn sentence_cut(before: Seq<char>) -> int {
    let t = trim_end_terminators(before);
    match spec_last_match(TERMINATORS@, t) {
        Some((_, e)) => t.len() - trim_start(t.skip(e as int)).len(),
        None => 0,
    }
}

/// The sentence as a list: a list when it holds a comma or " and " (its
/// part up to a colon kept as a heading line), else one bullet.
pub open spec fn listed(target: Seq<char>) -> Seq<char> {
    if contains_seq(target, ","@) || contains_seq(target, " and "@) {
        match first_colon(target) {
            Some(i) => target.take(i + 1) + "\n"@ + bullet_lines(list_items(target.skip(i + 1))),
            None => bullet_lines(list_items(target)),
        }
    } else {
        "- "@ + target
    }
}

/// One rewrite of the first command in `text`, or `None` when there is none.
pub open spec fn list_step(text: Seq<char>) -> Option<Seq<char>> {
    match regex_captures(BULLET_COMMAND@, text) {
        Some(g) => if group(g, 1) is Some {
            let before = text.take(span_start(g[0]) + span_end(group(g, 1)) - span_start(group(g, 1)));
            let cut = sentence_cut(before);
            Some(before.take(cut) + listed(trim_end(before.skip(cut))) + text.skip(span_end(g[0])))
        } else {
            None
        },
        None => None,
    }
}

/// The rewrites repeated while a command is found, at most `fuel` times.
pub open spec fn list_rounds(text: Seq<char>, fuel: nat) -> Seq<char>
    decreases fuel,
{
    if fuel == 0 {
        text
    } else {
        match list_step(text) {
            Some(next) => list_rounds(next, (fuel - 1) as nat),
            None => text,
        }
    }
}

/// What `format` gives: each list command rewritten in turn (stopping after
/// as many rounds as the text has chars), then leading whitespace removed.
pub open spec fn spec_format_lists(text: Seq<char>) -> Seq<char> {
    trim_start(list_rounds(text, text.len() + 1))
}

fn first_colon_exec(v: &Vec<char>) -> (r: Option<usize>)
    ensures
        r matches Some(i) ==> first_colon(v@) == Some(i as int) && i < v@.len(),
        r is None ==> first_colon(v@) is None,
{
    let mut i: usize = 0;
    proof {
        assert(v@.take(0) =~= Seq::<char>::empty());
    }
    while i < v.len()
        invariant
            i <= v@.len(),
            first_colon(v@.take(i as int)) is None,
            forall|n: int| i <= n <= v@.len() ==> #[trigger] first_colon(v@.take(n)) == first_colon(v@.take(i as int)) || first_colon(v@.take(n)) is Some,
        decreases v@.len() - i,
    {
        proof {
            assert(v@.take(i + 1).drop_last() =~= v@.take(i as int));
            assert(v@.take(i + 1).last() == v@[i as int]);
        }
        if v[i] == ':' {
            proof {
                lemma_first_colon_prefix(v@, i + 1);
            }
            return Some(i);
        }
        i = i + 1;
    }
    proof {
        assert(v@.take(v@.len() as int) =~= v@);
    }
    None
}

/// Once a prefix has a colon, every longer prefix reports the same one.
proof fn lemma_first_colon_prefix(s: Seq<char>, n: int)
    requires
        0 <= n <= s.len(),
        first_colon(s.take(n)) is Some,
    ensures
        first_colon(s) == first_colon(s.take(n)),
    decreases s.len() - n,
{
    if n < s.len() {
        assert(s.take(n + 1).drop_last() =~= s.take(n));
        lemma_first_colon_prefix(s, n + 1);
    } else {
        assert(s.take(n) =~= s);
    }
}

fn split_pieces_exec(text: &Vec<char>, ms: &Vec<Vec<Option<(usize, usize)>>>) -> (r: Vec<Vec<char>>)
    requires
        well_formed_matches(matches_view(*ms), text@.len()),
    ensures
        words_view(r@) == split_pieces(text@, matches_view(*ms)),
{
    let ghost mv = matches_view(*ms);
    let mut out: Vec<Vec<char>> = Vec::new();
    let mut prev: usize = 0;
    let mut i: usize = 0;
    proof {
        assert(mv.take(0) =~= Seq::<Groups>::empty());
        assert(words_view(out@) =~= split_pieces(text@, mv.take(0)).drop_last());
    }
    while i < ms.len()
        invariant
            mv == matches_view(*ms),
            well_formed_matches(mv, text@.len()),
            i <= ms@.len(),
            prev <= text@.len(),
            i > 0 ==> prev == span_end(mv[i - 1][0]),
            i == 0 ==> prev == 0,
            forall|k: int| 0 <= k < i ==> 0 <= span_start((#[trigger] mv[k])[0]) <= span_end(mv[k][0]) <= prev,
            prev == split_last_start(mv.take(i as int)),
            words_view(out@) == split_pieces(text@, mv.take(i as int)).drop_last(),
        decreases ms@.len() - i,
    {
        let g = &ms[i];
        proof {
            assert(mv[i as int] == g@);
            assert(well_formed_groups(g@, text@.len()));
            if i > 0 {
                assert(span_end(mv[i - 1][0]) <= span_start(mv[i as int][0]));
            }
        }
        let (a, b) = match g[0] {
            Some(span) => span,
            None => (0, 0),
        };
        let piece = slice(text, prev, a);
        let ghost before = out@;
        out.push(piece);
        proof {
            lemma_split_prefix(text@, mv.take(i as int), a as int);
            let mi = mv.take(i + 1);
            assert(mi.drop_last() =~= mv.take(i as int));
            assert(mi.last() == mv[i as int]);
            assert(text@.take(a as int).skip(prev as int) =~= piece@);
            assert(words_view(out@) =~= words_view(before).push(piece@));
            assert(split_pieces(text@, mi).drop_last() == split_pieces(text@.take(a as int), mv.take(i as int)));
        }
        prev = b;
        i = i + 1;
    }
    let tail = slice(text, prev, text.len());
    let ghost before = out@;
    out.push(tail);
    proof {
        assert(mv.take(ms@.len() as int) =~= mv);
        assert(tail@ =~= text@.skip(prev as int));
        assert(words_view(out@) =~= words_view(before).push(tail@));
        lemma_split_prefix(text@, mv, text@.len() as int);
        assert(text@.take(text@.len() as int) =~= text@);
    }
    out
}

/// Cutting the text leaves all pieces of a split but the last alone.
proof fn lemma_split_prefix(t: Seq<char>, ms: Seq<Groups>, e: int)
    requires
        0 <= e <= t.len(),
        forall|k: int| 0 <= k < ms.len() ==> 0 <= span_start((#[trigger] ms[k])[0]) <= span_end(ms[k][0]) <= e,
    ensures
        split_pieces(t.take(e), ms) == split_pieces(t, ms).drop_last().push(t.take(e).skip(split_last_start(ms))),
{
    if ms.len() == 0 {
        assert(t.take(e).skip(0) =~= t.take(e));
        assert(split_pieces(t, ms).drop_last() =~= Seq::<Seq<char>>::empty());
        assert(split_pieces(t.take(e), ms) =~= seq![t.take(e)]);
    } else {
        let g = ms.last();
        assert(ms[ms.len() - 1] == g);
        let s0 = span_start(g[0]);
        assert(t.take(e).take(s0) =~= t.take(s0));
        assert(split_pieces(t, ms).drop_last() =~= split_pieces(t.take(s0), ms.drop_last()));
    }
}

/// Where the last piece of a split starts.
pub open spec fn split_last_start(ms: Seq<Groups>) -> int {
    if ms.len() == 0 {
        0
    } else {
        span_end(ms.last()[0])
    }
}

fn nonblank(parts: &Vec<Vec<char>>) -> (r: Vec<Vec<char>>)
    ensures
        words_view(r@) == words_view(parts@).filter(|p: Seq<char>| trim(p).len() > 0),
{
    let ghost pv = words_view(parts@);
    let mut out: Vec<Vec<char>> = Vec::new();
    let mut k: usize = 0;
    proof {
        assert(pv.take(0) =~= Seq::<Seq<char>>::empty());
        assert(pv.take(0).filter(|p: Seq<char>| trim(p).len() > 0) =~= Seq::<Seq<char>>::empty());
    }
    while k < parts.len()
        invariant
            pv == words_view(parts@),
            k <= parts@.len(),
            words_view(out@) == pv.take(k as int).filter(|p: Seq<char>| trim(p).len() > 0),
        decreases parts@.len() - k,
    {
        let t = trimmed(&parts[k]);
        proof {
            assert(pv.take(k + 1).drop_last() =~= pv.take(k as int));
            assert(pv.take(k + 1).last() == parts@[k as int]@);
            pv.take(k as int).lemma_filter_push(parts@[k as int]@, |p: Seq<char>| trim(p).len() > 0);
            assert(pv.take(k as int).push(parts@[k as int]@) =~= pv.take(k + 1));
        }
        if t.len() > 0 {
            let copy = slice(&parts[k], 0, parts[k].len());
            let ghost before = out@;
            out.push(copy);
            proof {
                assert(parts@[k as int]@.subrange(0, parts@[k as int]@.len() as int) =~= parts@[k as int]@);
                assert(words_view(out@) =~= words_view(before).push(parts@[k as int]@));
            }
        }
        k = k + 1;
    }
    proof {
        assert(pv.take(parts@.len() as int) =~= pv);
    }
    out
}

fn bullets_exec(items: &Vec<Vec<char>>) -> (r: Vec<char>)
    ensures
        r@ == bullet_lines(words_view(items@)),
{
    let ghost iv = words_view(items@);
    let mut lines: Vec<Vec<char>> = Vec::new();
    let mut k: usize = 0;
    while k < items.len()
        invariant
            iv == words_view(items@),
            k <= items@.len(),
            words_view(lines@) == iv.map_values(|p: Seq<char>| "- "@ + trim(p)).take(k as int),
        decreases items@.len() - k,
    {
        let mut line = chars_of("- ");
        let t = trimmed(&items[k]);
        append(&mut line, &t);
        let ghost before = lines@;
        lines.push(line);
        proof {
            assert(words_view(lines@) =~= words_view(before).push(lines@[k as int]@));
            assert(iv.map_values(|p: Seq<char>| "- "@ + trim(p)).take(k + 1)
                =~= iv.map_values(|p: Seq<char>| "- "@ + trim(p)).take(k as int).push("- "@ + trim(iv[k as int])));
        }
        k = k + 1;
    }
    proof {
        assert(iv.map_values(|p: Seq<char>| "- "@ + trim(p)).take(items@.len() as int)
            =~= iv.map_values(|p: Seq<char>| "- "@ + trim(p)));
    }
    join_with(&lines, "\n")
}

fn list_items_exec(content: &Vec<char>) -> (r: Vec<char>)
    ensures
        r@ == bullet_lines(list_items(content@)),
{
    let ms = captures_all_in(ITEM_SEPARATOR, content);
    let parts = split_pieces_exec(content, &ms);
    let items = nonblank(&parts);
    bullets_exec(&items)
}

fn listed_exec(target: &Vec<char>) -> (r: Vec<char>)
    ensures
        r@ == listed(target@),
{
    let comma = chars_of(",");
    let and_word = chars_of(" and ");
    if contains(target, &comma) || contains(target, &and_word) {
        match first_colon_exec(target) {
            Some(i) => {
                let n = target.len();
                assert(i < n);
                let mut out = slice(target, 0, i + 1);
                out.push('\n');
                let content = slice(target, i + 1, target.len());
                let bullets = list_items_exec(&content);
                append(&mut out, &bullets);
                proof {
                    reveal_strlit("\n");
                    assert(content@ =~= target@.skip(i + 1));
                    assert(out@ =~= target@.take(i + 1) + "\n"@ + bullet_lines(list_items(target@.skip(i + 1))));
                }
                out
            },
            None => list_items_exec(target),
        }
    } else {
        let mut out = chars_of("- ");
        append(&mut out, target);
        out
    }
}

fn list_step_exec(text: &Vec<char>) -> (r: Option<Vec<char>>)
    ensures
        match list_step(text@) {
            Some(n) => r matches Some(v) && v@ == n,
            None => r is None,
        },
{
    let g = match captures_in(BULLET_COMMAND, text) {
        Some(g) => g,
        None => return None,
    };
    let (ps, pe) = match group_at(&g, 1) {
        Some(span) => span,
        None => return None,
    };
    let (cs, ce) = match g[0] {
        Some(span) => span,
        None => return None,
    };
    proof {
        assert(g@[1] is Some);
    }
    let before = slice(text, 0, cs + (pe - ps));
    let t_end = trim_end_terminators_index(&before);
    let t = slice(&before, 0, t_end);
    proof {
        assert(t@ =~= before@.take(t_end as int));
    }
    let cut = match last_match(TERMINATORS, &t) {
        Some((_, e)) => {
            let rest = slice(&t, e, t.len());
            proof {
                assert(rest@ =~= t@.skip(e as int));
            }
            t.len() - trim_start_len(&rest)
        },
        None => 0,
    };
    let mut out = slice(&before, 0, cut);
    let tail = slice(&before, cut, before.len());
    let target = trimmed_end(&tail);
    let body = listed_exec(&target);
    append(&mut out, &body);
    let after = slice(text, ce, text.len());
    append(&mut out, &after);
    proof {
        assert(before@ =~= text@.take(cs + (pe - ps)));
        assert(tail@ =~= before@.skip(cut as int));
        assert(after@ =~= text@.skip(ce as int));
        assert(out@ =~= before@.take(cut as int) + listed(trim_end(before@.skip(cut as int))) + text@.skip(ce as int));
    }
    Some(out)
}

/// Turns each "convert to bullet list" command into a list of the sentence before it.
pub fn format(text: &str) -> (r: String)
    ensures
        r@ == spec_format_lists(text@),
{
    let mut resolved = chars_of(text);
    let mut left = resolved.len();
    loop
        invariant_except_break
            list_rounds(text@, (text@.len() + 1) as nat) == list_rounds(resolved@, (left + 1) as nat),
        ensures
            list_rounds(text@, (text@.len() + 1) as nat) == resolved@,
        decreases left,
    {
        match list_step_exec(&resolved) {
            Some(next) => {
                proof {
                    assert(list_rounds(next@, 0) == next@);
                }
                resolved = next;
                if left == 0 {
                    break;
                }
                left = left - 1;
            },
            None => break,
        }
    }
    let out = trimmed_start(&resolved);
    string_of(&out)
}

/// The formatting-pass rule for lists, run on every request.
pub struct ListsRule;

impl FormatterRule for ListsRule {
    open spec fn obeys_rule_spec(&self) -> bool {
        true
    }

    open spec fn spec_metadata(&self) -> RuleMetadata {
        builtin_metadata("ListsRule", RuleCategory::Formatting, 600, regex_capabilities(false, false, false))
    }

    open spec fn spec_applies(&self, request: TransformationRequest) -> bool {
        true
    }

    open spec fn rewrite(&self, text: Seq<char>, request: TransformationRequest) -> Seq<char> {
        spec_format_lists(text)
    }

    fn metadata(&self) -> (m: RuleMetadata) {
        builtin("ListsRule", RuleCategory::Formatting, 600, streaming_regex_capabilities(false, false, false))
    }

    fn applies(&self, _request: &TransformationRequest) -> (r: bool) {
        true
    }

    fn apply(&self, state: &mut TransformationState, _request: &TransformationRequest)
        ensures
            logs_run(old(state).diagnostics@, final(state).diagnostics@, "ListsRule", old(state).current_text@, final(state).current_text@),
    {
        let started = instant_now();
        let before = state.current_text.clone();
        state.current_text = format(state.current_text.as_str());
        finish_rule_run(state, "ListsRule", before, &started);
    }
}


/// The sentence before a list command becomes a list exactly when it holds a
/// comma or the word "and" between spaces (" and "), even without a comma:
/// then it is one bullet line per item found between the item separators
/// (",", ", and", " and "), under a heading line made of its part up to the
/// first ':' when it has one. A sentence with neither becomes one bullet,
/// "- " followed by the sentence.
pub proof fn lemma_listed_items(target: Seq<char>)
    ensures
        contains_seq(target, " and "@) || contains_seq(target, ","@) ==> listed(target) == match first_colon(target) {
            Some(i) => target.take(i + 1) + "\n"@ + bullet_lines(list_items(target.skip(i + 1))),
            None => bullet_lines(list_items(target)),
        },
        !contains_seq(target, " and "@) && !contains_seq(target, ","@) ==> listed(target) == "- "@ + target,
        first_colon(target) matches Some(i) ==> 0 <= i < target.len() && target[i] == ':'
            && forall|j: int| 0 <= j < i ==> #[trigger] target[j] != ':',
        first_colon(target) is None ==> forall|j: int| 0 <= j < target.len() ==> #[trigger] target[j] != ':',
{
    lemma_first_colon_is_first(target);
}

/// `first_colon` finds the first ':'.
proof fn lemma_first_colon_is_first(s: Seq<char>)
    ensures
        first_colon(s) matches Some(i) ==> 0 <= i < s.len() && s[i] == ':'
            && forall|j: int| 0 <= j < i ==> #[trigger] s[j] != ':',
        first_colon(s) is None ==> forall|j: int| 0 <= j < s.len() ==> #[trigger] s[j] != ':',
    decreases s.len(),
{
    if s.len() > 0 {
        lemma_first_colon_is_first(s.drop_last());
        assert forall|j: int| 0 <= j < s.len() - 1 implies #[trigger] s[j] == s.drop_last()[j] by {}
    }
}


/// The bullet lines of items: nothing for no item; "- " and the trimmed item
/// for one; and for more, the lines of all but the last, a line break, then
/// "- " and the trimmed last item.
pub proof fn lemma_bullet_lines(items: Seq<Seq<char>>)
    ensures
        items.len() == 0 ==> bullet_lines(items) == Seq::<char>::empty(),
        items.len() == 1 ==> bullet_lines(items) == "- "@ + trim(items[0]),
        items.len() >= 2 ==> bullet_lines(items) == bullet_lines(items.drop_last()) + "\n"@ + ("- "@ + trim(items.last())),
{
    let f = |p: Seq<char>| "- "@ + trim(p);
    let ls = items.map_values(f);
    if items.len() >= 2 {
        assert(ls.drop_last() =~= items.drop_last().map_values(f));
        assert(ls.last() == f(items.last()));
    } else if items.len() == 1 {
        assert(ls[0] == f(items[0]));
    }
}

} // verus!
