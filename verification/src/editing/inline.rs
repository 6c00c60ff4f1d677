//! Inline corrections: "X, no wait, Y" keeps Y in place of X.
use vstd::prelude::*;

use super::context::{
    history_extends, lemma_history_push, lemma_history_extends_trans, make_operation, tagged,
    CorrectionConfidence, EntityType, LogEntry, OperationKind, PendingCorrection, RewriteContext,
};
use crate::matching::{
    captures_in, group, group_at, regex_captures, span_end, span_start, well_formed_groups, Groups,
};
use crate::text::{append, chars_of, is_uppercase, slice, spec_is_uppercase, string_of};

verus! {

/// A correction trigger at the very end of the text (more of it may still come).
pub const PENDING_TRIGGER: &'static str = r"(?i)\b(?:no wait|wait|no|actually|sorry|correction|i mean|rather)\s*$";

pub const INLINE_TIME: &'static str = r"(?i)\b(?P<old>\d+(?:\:\d+)?\s*(?:AM|PM|am|pm))\b\s*[\.,]?\s*(?:no wait|wait|no|actually|sorry|correction|i mean|rather)\s*[\.,]?\s+\b(?P<new>\d+(?:\:\d+)?\s*(?:AM|PM|am|pm))\b";
pub const INLINE_QUANTITY: &'static str = r"(?i)\b(?P<old>\d+\s+[a-z]+)\b\s*[\.,]?\s*(?:no wait|wait|no|actually|sorry|correction|i mean|rather)\s*[\.,]?\s+\b(?P<new>\d+\s+[a-z]+)\b";
pub const INLINE_DATE: &'static str = r"(?i)\b(?P<old>[A-Za-z]+\s+\d+(?:st|nd|rd|th)?)\b\s*[\.,]?\s*(?:no wait|wait|no|actually|sorry|correction|i mean|rather)\s*[\.,]?\s+\b(?P<new>[A-Za-z]+\s+\d+(?:st|nd|rd|th)?)\b";
pub const INLINE_WEEKDAY: &'static str = r"(?i)\b(?P<old>Monday|Tuesday|Wednesday|Thursday|Friday|Saturday|Sunday)\b\s*[\.,]?\s*(?:no wait|wait|no|actually|sorry|correction|i mean|rather)\s*[\.,]?\s+\b(?P<new>Monday|Tuesday|Wednesday|Thursday|Friday|Saturday|Sunday)\b";
pub const INLINE_NAME: &'static str = r"(?i)\b(?P<old>[A-Z][a-z]+)\b\s*[\.,]?\s*(?:no wait|wait|no|actually|sorry|correction|i mean|rather)\s*[\.,]?\s+\b(?P<new>[A-Z][a-z]+)\b";
pub const INLINE_WORD: &'static str = r"(?i)\b(?P<old>\w+)\b\s*[\.,]?\s*(?:no wait|wait|no|actually|sorry|correction|i mean|rather)\s*[\.,]?\s+\b(?P<new>\w+)\b";

/// "June 10, no, 12": the day of the month alone is corrected (groups: month, old, new).
pub const INLINE_DAY_OF_MONTH: &'static str = r"(?i)\b(?P<month>[A-Za-z]+)\s+(?P<old>\d+(?:st|nd|rd|th)?)\b\s*[\.,]?\s*(?:no wait|wait|no|actually|sorry|correction|i mean|rather)\s*[\.,]?\s+\b(?P<new>\d+(?:st|nd|rd|th)?)\b";

/// "5 licenses, actually 10": the count alone is corrected (groups: old, noun, new).
pub const INLINE_COUNT: &'static str = r"(?i)\b(?P<old>\d+)(?P<noun>\s+[a-z]+)\s*[\.,]?\s*(?:no wait|wait|no|actually|sorry|correction|i mean|rather)\s*[\.,]?\s+\b(?P<new>\d+)\b";

pub const ENTITY_TIME: &'static str = r"(?i)^\d+(?:\:\d+)?\s*(?:AM|PM|am|pm)$";
pub const ENTITY_WEEKDAY: &'static str = r"(?i)^(Monday|Tuesday|Wednesday|Thursday|Friday|Saturday|Sunday)$";
pub const ENTITY_DATE: &'static str = r"(?i)^[A-Za-z]+\s+\d+(?:st|nd|rd|th)?$";
pub const ENTITY_NUMBER: &'static str = r"(?i)^\d+$";
pub const ENTITY_QUANTITY: &'static str = r"(?i)^\d+\s+[a-z]+$";
pub const ENTITY_NAME: &'static str = r"^[A-Z][a-z]+$";

/// Whether `pattern` matches somewhere in `s`.
pub open spec fn is_match(pattern: Seq<char>, s: Seq<char>) -> bool {
    regex_captures(pattern, s) is Some
}

/// The kind of entity a phrase names, by the first pattern it matches.
pub open spec fn spec_classify_entity(s: Seq<char>) -> EntityType {
    if is_match(ENTITY_TIME@, s) {
        EntityType::Time
    } else if is_match(ENTITY_WEEKDAY@, s) {
        EntityType::Date
    } else if is_match(ENTITY_DATE@, s) {
        EntityType::Date
    } else if is_match(ENTITY_NUMBER@, s) {
        EntityType::Number
    } else if is_match(ENTITY_QUANTITY@, s) {
        EntityType::Number
    } else if is_match(ENTITY_NAME@, s) {
        EntityType::Location
    } else {
        EntityType::Unknown
    }
}

/// Whether a phrase starts with an uppercase char.
pub open spec fn starts_upper(s: Seq<char>) -> bool {
    s.len() > 0 && spec_is_uppercase(s[0])
}

/// How sure a correction of `old` into `new` is: high when both name the same
/// kind of entity, medium when neither names one but both are capitalized,
/// low otherwise.
pub open spec fn spec_confidence(old: Seq<char>, new: Seq<char>) -> CorrectionConfidence {
    let a = spec_classify_entity(old);
    let b = spec_classify_entity(new);
    if a != EntityType::Unknown && a == b {
        CorrectionConfidence::High
    } else if a == EntityType::Unknown && b == EntityType::Unknown && starts_upper(old) && starts_upper(new) {
        CorrectionConfidence::Medium
    } else {
        CorrectionConfidence::Low
    }
}

fn matches(pattern: &str, s: &[char]) -> (r: bool)
    ensures
        r == is_match(pattern@, s@),
{
    match captures_in(pattern, s) {
        Some(_) => true,
        None => false,
    }
}

pub fn classify_entity(text: &[char]) -> (t: EntityType)
    ensures
        t == spec_classify_entity(text@),
{
    if matches(ENTITY_TIME, text) {
        return EntityType::Time;
    }
    if matches(ENTITY_WEEKDAY, text) {
        return EntityType::Date;
    }
    if matches(ENTITY_DATE, text) {
        return EntityType::Date;
    }
    if matches(ENTITY_NUMBER, text) {
        return EntityType::Number;
    }
    if matches(ENTITY_QUANTITY, text) {
        return EntityType::Number;
    }
    if matches(ENTITY_NAME, text) {
        return EntityType::Location;
    }
    EntityType::Unknown
}

pub fn get_confidence(old_str: &[char], new_str: &[char]) -> (c: CorrectionConfidence)
    ensures
        c == spec_confidence(old_str@, new_str@),
{
    let old_type = classify_entity(old_str);
    let new_type = classify_entity(new_str);
    if old_type != EntityType::Unknown && old_type == new_type {
        return CorrectionConfidence::High;
    }
    if old_type == EntityType::Unknown && new_type == EntityType::Unknown {
        let old_capitalized = old_str.len() > 0 && is_uppercase(old_str[0]);
        let new_capitalized = new_str.len() > 0 && is_uppercase(new_str[0]);
        if old_capitalized && new_capitalized {
            return CorrectionConfidence::Medium;
        }
        return CorrectionConfidence::Low;
    }
    CorrectionConfidence::Low
}

/// The inline-correction patterns, tried in this order.
pub open spec fn inline_pattern(k: int) -> Seq<char> {
    if k == 0 {
        INLINE_TIME@
    } else if k == 1 {
        INLINE_QUANTITY@
    } else if k == 2 {
        INLINE_DATE@
    } else if k == 3 {
        INLINE_WEEKDAY@
    } else if k == 4 {
        INLINE_NAME@
    } else {
        INLINE_WORD@
    }
}

/// The text of group `k`, or nothing when it did not take part.
pub open spec fn text_or_empty(g: Groups, r: Seq<char>, k: int) -> Seq<char> {
    match group(g, k) {
        Some((a, b)) => r.subrange(a as int, b as int),
        None => Seq::empty(),
    }
}

/// The text with the whole match `g` replaced by `replacement`.
pub open spec fn splice_match(g: Groups, r: Seq<char>, replacement: Seq<char>) -> Seq<char> {
    r.take(span_start(g[0])) + replacement + r.skip(span_end(g[0]))
}

/// The first correction, trying patterns `k` onwards, whose confidence is
/// not low: its whole match is replaced by the corrected phrase.
pub open spec fn inline_try(r: Seq<char>, k: int) -> Option<Seq<char>>
    decreases 6 - k,
{
    if k < 0 || k >= 6 {
        None
    } else {
        match regex_captures(inline_pattern(k), r) {
            Some(g) => if well_formed_groups(g, r.len()) && spec_confidence(
                text_or_empty(g, r, 1),
                text_or_empty(g, r, 2),
            ) != CorrectionConfidence::Low {
                Some(splice_match(g, r, text_or_empty(g, r, 2)))
            } else {
                inline_try(r, k + 1)
            },
            None => inline_try(r, k + 1),
        }
    }
}

/// Repeats the inline corrections while they shorten the text; gives the
/// final text and the (before, after) texts of each correction.
pub open spec fn inline_run(r: Seq<char>) -> (Seq<char>, Seq<(Seq<char>, Seq<char>)>)
    decreases r.len(),
{
    match inline_try(r, 0) {
        Some(n) => if n.len() < r.len() {
            let rest = inline_run(n);
            (rest.0, seq![(r, n)] + rest.1)
        } else {
            (r, seq![])
        },
        None => (r, seq![]),
    }
}

/// The "June 10, no, 12" fix: the month, a space, and the new day.
pub open spec fn day_of_month_fix(r: Seq<char>) -> Option<Seq<char>> {
    match regex_captures(INLINE_DAY_OF_MONTH@, r) {
        Some(g) => if well_formed_groups(g, r.len()) && group(g, 1) is Some && group(g, 3) is Some {
            Some(splice_match(g, r, text_or_empty(g, r, 1) + seq![' '] + text_or_empty(g, r, 3)))
        } else {
            None
        },
        None => None,
    }
}

/// The "5 licenses, actually 10" fix: the new count followed by the noun.
pub open spec fn count_fix(r: Seq<char>) -> Option<Seq<char>> {
    match regex_captures(INLINE_COUNT@, r) {
        Some(g) => if well_formed_groups(g, r.len()) && group(g, 2) is Some && group(g, 3) is Some {
            Some(splice_match(g, r, text_or_empty(g, r, 3) + text_or_empty(g, r, 2)))
        } else {
            None
        },
        None => None,
    }
}

/// `fix(r)` applied once, with its log entry.
pub open spec fn apply_fix(r: Seq<char>, fixed: Option<Seq<char>>) -> (Seq<char>, Seq<(Seq<char>, Seq<char>)>) {
    match fixed {
        Some(n) => (n, seq![(r, n)]),
        None => (r, seq![]),
    }
}

/// Whether the text ends with a correction trigger whose correction has not come yet.
pub open spec fn ends_with_trigger(text: Seq<char>) -> bool {
    is_match(PENDING_TRIGGER@, text)
}

/// The text and log of the inline corrections, once no trigger is pending.
pub open spec fn inline_corrected(text: Seq<char>) -> (Seq<char>, Seq<(Seq<char>, Seq<char>)>) {
    let a = inline_run(text);
    let b = apply_fix(a.0, day_of_month_fix(a.0));
    let c = apply_fix(b.0, count_fix(b.0));
    (c.0, a.1 + b.1 + c.1)
}

/// What `resolve_inline_corrections` returns for `text`.
pub open spec fn spec_inline_corrections(text: Seq<char>) -> Seq<char> {
    if ends_with_trigger(text) {
        text
    } else {
        inline_corrected(text).0
    }
}

/// What `resolve_inline_corrections` logs for `text`.
pub open spec fn inline_log(text: Seq<char>) -> Seq<(Seq<char>, Seq<char>)> {
    if ends_with_trigger(text) {
        seq![]
    } else {
        inline_corrected(text).1
    }
}

/// The pending correction after seeing `text`.
pub open spec fn pending_after(text: Seq<char>, before: Option<PendingCorrection>, after: Option<PendingCorrection>) -> bool {
    if ends_with_trigger(text) {
        match before {
            Some(_) => after == before,
            None => after matches Some(p) && p.trigger@ == "pending"@ && p.target_span == (0usize, 0usize),
        }
    } else {
        after is None
    }
}

} // verus!

verus! {

fn inline_pattern_exec(k: usize) -> (p: &'static str)
    requires
        k < 6,
    ensures
        p@ == inline_pattern(k as int),
{
    if k == 0 {
        INLINE_TIME
    } else if k == 1 {
        INLINE_QUANTITY
    } else if k == 2 {
        INLINE_DATE
    } else if k == 3 {
        INLINE_WEEKDAY
    } else if k == 4 {
        INLINE_NAME
    } else {
        INLINE_WORD
    }
}

fn text_or_empty_exec(g: &Vec<Option<(usize, usize)>>, r: &Vec<char>, k: usize) -> (t: Vec<char>)
    requires
        well_formed_groups(g@, r@.len()),
    ensures
        t@ == text_or_empty(g@, r@, k as int),
{
    match group_at(g, k) {
        Some((a, b)) => {
            proof {
                assert(g@[k as int] == group(g@, k as int));
                assert(g@[k as int] is Some);
            }
            slice(r, a, b)
        },
        None => Vec::new(),
    }
}

fn splice_exec(g: &Vec<Option<(usize, usize)>>, r: &Vec<char>, replacement: &[char]) -> (t: Vec<char>)
    requires
        well_formed_groups(g@, r@.len()),
    ensures
        t@ == splice_match(g@, r@, replacement@),
{
    let (s, e) = match g[0] {
        Some(span) => span,
        None => (0, 0),
    };
    let mut out = slice(r, 0, s);
    append(&mut out, replacement);
    let tail = slice(r, e, r.len());
    append(&mut out, &tail);
    proof {
        assert(out@ =~= splice_match(g@, r@, replacement@));
    }
    out
}

fn inline_try_exec(r: &Vec<char>) -> (res: Option<Vec<char>>)
    ensures
        match res {
            Some(n) => inline_try(r@, 0) == Some(n@),
            None => inline_try(r@, 0) is None,
        },
{
    let mut k: usize = 0;
    while k < 6
        invariant
            k <= 6,
            inline_try(r@, 0) == inline_try(r@, k as int),
        decreases 6 - k,
    {
        match captures_in(inline_pattern_exec(k), r) {
            Some(g) => {
                let old = text_or_empty_exec(&g, r, 1);
                let new = text_or_empty_exec(&g, r, 2);
                if get_confidence(&old, &new) != CorrectionConfidence::Low {
                    return Some(splice_exec(&g, r, &new));
                }
            },
            None => {},
        }
        k += 1;
    }
    None
}

/// Applies the inline corrections while they shorten the text, logging each.
fn inline_run_exec(text: &Vec<char>, context: &mut RewriteContext) -> (out: Vec<char>)
    ensures
        out@ == inline_run(text@).0,
        history_extends(old(context).history@, final(context).history@, tagged(OperationKind::InlineCorrection, inline_run(text@).1)),
        final(context).pending_correction == old(context).pending_correction,
{
    let mut resolved = slice(text, 0, text.len());
    let ghost mut trace: Seq<(Seq<char>, Seq<char>)> = seq![];
    proof {
        assert(text@.subrange(0, text@.len() as int) =~= text@);
        assert(tagged(OperationKind::InlineCorrection, trace) =~= Seq::empty());
    }
    loop
        invariant
            inline_run(text@).0 == inline_run(resolved@).0,
            inline_run(text@).1 == trace + inline_run(resolved@).1,
            history_extends(old(context).history@, context.history@, tagged(OperationKind::InlineCorrection, trace)),
            context.pending_correction == old(context).pending_correction,
        ensures
            inline_run(resolved@).0 == resolved@,
            inline_run(resolved@).1.len() == 0,
        decreases resolved@.len(),
    {
        match inline_try_exec(&resolved) {
            Some(next) => {
                if next.len() >= resolved.len() {
                    break;
                }
                let ghost prev = resolved@;
                let op = make_operation(OperationKind::InlineCorrection, &resolved, &next);
                proof {
                    lemma_history_push(old(context).history@, context.history@, tagged(OperationKind::InlineCorrection, trace), op, (OperationKind::InlineCorrection, prev, next@));
                    assert(tagged(OperationKind::InlineCorrection, trace).push((OperationKind::InlineCorrection, prev, next@)) =~= tagged(OperationKind::InlineCorrection, trace.push((prev, next@))));
                }
                context.history.push(op);
                proof {
                    trace = trace.push((prev, next@));
                    assert(inline_run(prev).1 =~= seq![(prev, next@)] + inline_run(next@).1);
                    assert(inline_run(text@).1 =~= trace + inline_run(next@).1);
                }
                resolved = next;
            },
            None => break,
        }
    }
    resolved
}

fn day_of_month_fix_exec(r: &Vec<char>) -> (res: Option<Vec<char>>)
    ensures
        match res {
            Some(n) => day_of_month_fix(r@) == Some(n@),
            None => day_of_month_fix(r@) is None,
        },
{
    let g = match captures_in(INLINE_DAY_OF_MONTH, r) {
        Some(g) => g,
        None => return None,
    };
    if group_at(&g, 1).is_none() || group_at(&g, 3).is_none() {
        return None;
    }
    let mut rep = text_or_empty_exec(&g, r, 1);
    rep.push(' ');
    let new = text_or_empty_exec(&g, r, 3);
    append(&mut rep, &new);
    Some(splice_exec(&g, r, &rep))
}

fn count_fix_exec(r: &Vec<char>) -> (res: Option<Vec<char>>)
    ensures
        match res {
            Some(n) => count_fix(r@) == Some(n@),
            None => count_fix(r@) is None,
        },
{
    let g = match captures_in(INLINE_COUNT, r) {
        Some(g) => g,
        None => return None,
    };
    if group_at(&g, 2).is_none() || group_at(&g, 3).is_none() {
        return None;
    }
    let mut rep = text_or_empty_exec(&g, r, 3);
    let noun = text_or_empty_exec(&g, r, 2);
    append(&mut rep, &noun);
    Some(splice_exec(&g, r, &rep))
}

/// Applies a one-time fix, logging it when it applied.
fn apply_fix_exec(r: Vec<char>, fixed: Option<Vec<char>>, context: &mut RewriteContext) -> (out: Vec<char>)
    ensures
        out@ == apply_fix(r@, opt_chars_view(fixed)).0,
        history_extends(old(context).history@, final(context).history@, tagged(OperationKind::InlineCorrection, apply_fix(r@, opt_chars_view(fixed)).1)),
        final(context).pending_correction == old(context).pending_correction,
{
    match fixed {
        Some(n) => {
            let op = make_operation(OperationKind::InlineCorrection, &r, &n);
            proof {
                lemma_history_push(old(context).history@, context.history@, Seq::empty(), op, (OperationKind::InlineCorrection, r@, n@));
                assert(Seq::<LogEntry>::empty().push((OperationKind::InlineCorrection, r@, n@)) =~= tagged(OperationKind::InlineCorrection, seq![(r@, n@)]));
            }
            context.history.push(op);
            n
        },
        None => {
            proof {
                assert(tagged(OperationKind::InlineCorrection, Seq::<(Seq<char>, Seq<char>)>::empty()) =~= Seq::empty());
            }
            r
        },
    }
}

pub open spec fn opt_chars_view(o: Option<Vec<char>>) -> Option<Seq<char>> {
    match o {
        Some(v) => Some(v@),
        None => None,
    }
}

/// Resolves inline corrections ("at 3 PM, no wait, 4 PM" becomes "at 4 PM").
/// While the text ends with a trigger, it is returned unchanged and a
/// correction is marked pending in `context`; otherwise the pending mark is
/// cleared and each correction whose confidence is not low is applied and logged.
pub fn resolve_inline_corrections_with_context(text: &str, context: &mut RewriteContext) -> (r: String)
    ensures
        r@ == spec_inline_corrections(text@),
        history_extends(old(context).history@, final(context).history@, tagged(OperationKind::InlineCorrection, inline_log(text@))),
        pending_after(text@, old(context).pending_correction, final(context).pending_correction),
{
    let chars = chars_of(text);
    if matches(PENDING_TRIGGER, &chars) {
        if context.pending_correction.is_none() {
            context.pending_correction = Some(PendingCorrection { trigger: "pending".to_owned(), target_span: (0, 0) });
        }
        proof {
            assert(tagged(OperationKind::InlineCorrection, Seq::<(Seq<char>, Seq<char>)>::empty()) =~= Seq::empty());
            assert(history_extends(old(context).history@, context.history@, Seq::empty()));
        }
        return text.to_owned();
    } else if context.pending_correction.is_some() {
        context.pending_correction = None;
    }
    let ghost h0 = context.history@;
    let a = inline_run_exec(&chars, context);
    let ghost h1 = context.history@;
    let fixed_b = day_of_month_fix_exec(&a);
    let b = apply_fix_exec(a, fixed_b, context);
    let ghost h2 = context.history@;
    let fixed_c = count_fix_exec(&b);
    let c = apply_fix_exec(b, fixed_c, context);
    proof {
        let t = inline_corrected(text@);
        let a_s = inline_run(text@);
        let b_s = apply_fix(a_s.0, day_of_month_fix(a_s.0));
        let c_s = apply_fix(b_s.0, count_fix(b_s.0));
        lemma_history_extends_trans(h0, h1, h2, tagged(OperationKind::InlineCorrection, a_s.1), tagged(OperationKind::InlineCorrection, b_s.1));
        lemma_history_extends_trans(h0, h2, context.history@, tagged(OperationKind::InlineCorrection, a_s.1) + tagged(OperationKind::InlineCorrection, b_s.1), tagged(OperationKind::InlineCorrection, c_s.1));
        assert(tagged(OperationKind::InlineCorrection, a_s.1) + tagged(OperationKind::InlineCorrection, b_s.1) + tagged(OperationKind::InlineCorrection, c_s.1) =~= tagged(OperationKind::InlineCorrection, t.1));
    }
    string_of(&c)
}

/// Resolves inline corrections with a fresh context.
pub fn resolve_inline_corrections(text: &str) -> (r: String)
    ensures
        r@ == spec_inline_corrections(text@),
{
    let mut context = RewriteContext::new();
    resolve_inline_corrections_with_context(text, &mut context)
}


/// Whether none of the correction patterns finds anything in `text`.
pub open spec fn no_correction_found(text: Seq<char>) -> bool {
    &&& forall|k: int| 0 <= k < 6 ==> #[trigger] regex_captures(inline_pattern(k), text) is None
    &&& regex_captures(INLINE_DAY_OF_MONTH@, text) is None
    &&& regex_captures(INLINE_COUNT@, text) is None
}

proof fn lemma_inline_try_none(r: Seq<char>, k: int)
    requires
        0 <= k <= 6,
        forall|j: int| k <= j < 6 ==> #[trigger] regex_captures(inline_pattern(j), r) is None,
    ensures
        inline_try(r, k) is None,
    decreases 6 - k,
{
    if k < 6 {
        assert(regex_captures(inline_pattern(k), r) is None);
        lemma_inline_try_none(r, k + 1);
    }
}

/// A text in which no correction pattern finds anything comes back exactly
/// as it was, and nothing is logged.
pub proof fn lemma_no_correction_keeps_text(text: Seq<char>)
    requires
        no_correction_found(text),
    ensures
        spec_inline_corrections(text) == text,
        inline_log(text) == Seq::<(Seq<char>, Seq<char>)>::empty(),
{
    lemma_inline_try_none(text, 0);
    assert(inline_corrected(text).1 =~= Seq::<(Seq<char>, Seq<char>)>::empty());
}

} // verus!
