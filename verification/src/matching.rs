//! Regular-expression searches over text, and the facts about them that
//! the rewriting rules rely on.
use vstd::prelude::*;

use regex::Regex;
use crate::text::{append, slice};

verus! {

/// The spans of one match: entry `k` is the span of capture group `k`
/// (`None` when the group did not take part), as char offsets into the haystack.
pub type Groups = Seq<Option<(usize, usize)>>;

/// What `Regex::new(pattern)` followed by `captures(haystack)` gives: the groups
/// of the leftmost-first match, or `None` when there is no match or the pattern
/// does not compile.
pub uninterp spec fn regex_captures(pattern: Seq<char>, haystack: Seq<char>) -> Option<Groups>;

/// What `Regex::new(pattern)` followed by `captures_iter(haystack)` gives: the
/// groups of every successive non-overlapping match (empty when the pattern
/// does not compile).
pub uninterp spec fn regex_captures_all(pattern: Seq<char>, haystack: Seq<char>) -> Seq<Groups>;

/// What `Regex::new(pattern)` followed by `replace_all(haystack, replacement)`
/// gives, or `None` when the pattern does not compile.
pub uninterp spec fn regex_replace_all(
    pattern: Seq<char>,
    haystack: Seq<char>,
    replacement: Seq<char>,
) -> Option<Seq<char>>;

/// The shape every match has: group 0 is present and lies inside the
/// haystack, and every other group that took part lies inside group 0.
pub open spec fn well_formed_groups(g: Groups, len: nat) -> bool {
    &&& g.len() >= 1
    &&& g[0] is Some
    &&& span_start(g[0]) <= span_end(g[0]) <= len
    &&& forall|k: int|
        0 <= k < g.len() && #[trigger] g[k] is Some ==> span_start(g[0]) <= span_start(g[k])
            <= span_end(g[k]) <= span_end(g[0])
}

/// Start of a group's span (0 for a group that did not take part).
pub open spec fn span_start(o: Option<(usize, usize)>) -> int {
    match o {
        Some((a, _)) => a as int,
        None => 0,
    }
}

/// End of a group's span (0 for a group that did not take part).
pub open spec fn span_end(o: Option<(usize, usize)>) -> int {
    match o {
        Some((_, b)) => b as int,
        None => 0,
    }
}

/// Successive matches are well formed and do not overlap.
pub open spec fn well_formed_matches(ms: Seq<Groups>, len: nat) -> bool {
    &&& forall|k: int| 0 <= k < ms.len() ==> well_formed_groups(#[trigger] ms[k], len)
    &&& forall|k: int|
        0 <= k < ms.len() - 1 ==> span_end((#[trigger] ms[k])[0]) <= span_start(ms[k + 1][0])
}

pub open spec fn matches_view(r: Vec<Vec<Option<(usize, usize)>>>) -> Seq<Groups> {
    r@.map_values(|v: Vec<Option<(usize, usize)>>| v@)
}

pub open spec fn opt_groups_view(r: Option<Vec<Option<(usize, usize)>>>) -> Option<Groups> {
    match r {
        Some(v) => Some(v@),
        None => None,
    }
}

pub open spec fn opt_string_view(r: Option<String>) -> Option<Seq<char>> {
    match r {
        Some(s) => Some(s@),
        None => None,
    }
}

/// `Regex::captures` (regex crate): the first match's capture groups, with
/// byte offsets turned into char offsets. Claims only that the result is the
/// named result for these arguments and that a match has the shape every
/// regex match has (group 0 present, groups inside it, all inside the haystack).
#[verifier::external_body]
pub(crate) fn captures(pattern: &str, haystack: &str) -> (r: Option<Vec<Option<(usize, usize)>>>)
    ensures
        opt_groups_view(r) == regex_captures(pattern@, haystack@),
        r matches Some(v) ==> well_formed_groups(v@, haystack@.len()),
{
    let re = Regex::new(pattern).ok()?;
    let caps = re.captures(haystack)?;
    Some(caps.iter().map(|m| m.map(|m| (
        haystack[..m.start()].chars().count(),
        haystack[..m.end()].chars().count(),
    ))).collect())
}

/// `Regex::captures_iter` (regex crate): the capture groups of every
/// non-overlapping match, in order, with char offsets. Claims that the result
/// is the named result and that the matches are well formed and increasing.
#[verifier::external_body]
pub(crate) fn captures_all(pattern: &str, haystack: &str) -> (r: Vec<Vec<Option<(usize, usize)>>>)
    ensures
        matches_view(r) == regex_captures_all(pattern@, haystack@),
        well_formed_matches(matches_view(r), haystack@.len()),
{
    let re = match Regex::new(pattern) {
        Ok(re) => re,
        Err(_) => return Vec::new(),
    };
    re.captures_iter(haystack).map(|caps| caps.iter().map(|m| m.map(|m| (
        haystack[..m.start()].chars().count(),
        haystack[..m.end()].chars().count(),
    ))).collect()).collect()
}

/// `Regex::replace_all` (regex crate) with a replacement string (where `$name`
/// expands to a group). Claims that the result is the named result.
#[verifier::external_body]
pub(crate) fn replace_all(pattern: &str, haystack: &str, replacement: &str) -> (r: Option<String>)
    ensures
        opt_string_view(r) == regex_replace_all(pattern@, haystack@, replacement@),
{
    let re = Regex::new(pattern).ok()?;
    Some(re.replace_all(haystack, replacement).into_owned())
}

/// Whether `regex::escape` puts a backslash before `c`.
pub open spec fn is_meta_character(c: char) -> bool {
    c == '\\' || c == '.' || c == '+' || c == '*' || c == '?' || c == '(' || c == ')' || c == '|'
        || c == '[' || c == ']' || c == '{' || c == '}' || c == '^' || c == '$' || c == '#'
        || c == '&' || c == '-' || c == '~'
}

/// `regex::escape` on a char sequence: each meta character gets a backslash before it.
pub open spec fn spec_escape(s: Seq<char>) -> Seq<char>
    decreases s.len(),
{
    if s.len() == 0 {
        Seq::empty()
    } else {
        let rest = spec_escape(s.drop_last());
        if is_meta_character(s.last()) {
            rest.push('\\').push(s.last())
        } else {
            rest.push(s.last())
        }
    }
}

/// `regex::escape` (regex crate): claims the result is `spec_escape` of the input,
/// which is what its source does char by char.
#[verifier::external_body]
pub(crate) fn escape(s: &str) -> (r: String)
    ensures
        r@ == spec_escape(s@),
{
    regex::escape(s)
}

} // verus!

verus! {

/// Group `k` of a match, or `None` when the pattern has no such group or it did not take part.
pub open spec fn group(g: Groups, k: int) -> Option<(usize, usize)> {
    if 0 <= k < g.len() {
        g[k]
    } else {
        None
    }
}

/// Exec form of `group`.
pub fn group_at(g: &Vec<Option<(usize, usize)>>, k: usize) -> (r: Option<(usize, usize)>)
    ensures
        r == group(g@, k as int),
{
    if k < g.len() {
        g[k]
    } else {
        None
    }
}

/// The span of the last match of `pattern` in `haystack` (what `find_iter(..).last()` gives).
pub open spec fn spec_last_match(pattern: Seq<char>, haystack: Seq<char>) -> Option<(usize, usize)> {
    let ms = regex_captures_all(pattern, haystack);
    if ms.len() == 0 {
        None
    } else {
        ms.last()[0]
    }
}

/// The span of the last match of `pattern` in `text`.
pub fn last_match(pattern: &str, text: &[char]) -> (r: Option<(usize, usize)>)
    ensures
        r == spec_last_match(pattern@, text@),
        r matches Some((a, b)) ==> a <= b <= text@.len(),
{
    let s = crate::text::string_of(text);
    let ms = captures_all(pattern, s.as_str());
    if ms.len() == 0 {
        None
    } else {
        let last = &ms[ms.len() - 1];
        proof {
            assert(matches_view(ms)[ms@.len() - 1] == last@);
            assert(well_formed_groups(last@, text@.len()));
        }
        last[0]
    }
}

/// The first match of `pattern` in `text`, as char spans.
pub fn captures_in(pattern: &str, text: &[char]) -> (r: Option<Vec<Option<(usize, usize)>>>)
    ensures
        opt_groups_view(r) == regex_captures(pattern@, text@),
        r matches Some(v) ==> well_formed_groups(v@, text@.len()),
{
    let s = crate::text::string_of(text);
    captures(pattern, s.as_str())
}

/// All non-overlapping matches of `pattern` in `text`, as char spans.
pub fn captures_all_in(pattern: &str, text: &[char]) -> (r: Vec<Vec<Option<(usize, usize)>>>)
    ensures
        matches_view(r) == regex_captures_all(pattern@, text@),
        well_formed_matches(matches_view(r), text@.len()),
{
    let s = crate::text::string_of(text);
    captures_all(pattern, s.as_str())
}

} // verus!

verus! {

/// `text` with every match of `pattern` replaced by `replacement` (kept as it
/// is when the pattern does not compile).
pub open spec fn replaced(pattern: Seq<char>, text: Seq<char>, replacement: Seq<char>) -> Seq<char> {
    match regex_replace_all(pattern, text, replacement) {
        Some(t) => t,
        None => text,
    }
}

/// `text` after each (pattern, replacement) pair of `table` in turn.
pub open spec fn replace_each(text: Seq<char>, table: Seq<(Seq<char>, Seq<char>)>) -> Seq<char>
    decreases table.len(),
{
    if table.len() == 0 {
        text
    } else {
        replaced(table.last().0, replace_each(text, table.drop_last()), table.last().1)
    }
}

/// Exec form of `replaced`.
pub fn replace_or_keep(pattern: &str, text: &str, replacement: &str) -> (r: String)
    ensures
        r@ == replaced(pattern@, text@, replacement@),
{
    match replace_all(pattern, text, replacement) {
        Some(out) => out,
        None => text.to_owned(),
    }
}

/// The (pattern, replacement) pairs of a table as char sequences.
pub open spec fn table_view(table: Seq<(&'static str, &'static str)>) -> Seq<(Seq<char>, Seq<char>)> {
    table.map_values(|e: (&'static str, &'static str)| (e.0@, e.1@))
}

/// Applies each (pattern, replacement) pair of `table` to `text` in turn.
pub fn replace_table(text: &str, table: &Vec<(&'static str, &'static str)>) -> (r: String)
    ensures
        r@ == replace_each(text@, table_view(table@)),
{
    let mut result = text.to_owned();
    let mut k: usize = 0;
    proof {
        assert(table_view(table@).take(0) =~= Seq::<(Seq<char>, Seq<char>)>::empty());
    }
    while k < table.len()
        invariant
            k <= table@.len(),
            result@ == replace_each(text@, table_view(table@).take(k as int)),
        decreases table@.len() - k,
    {
        let (pattern, replacement) = table[k];
        result = replace_or_keep(pattern, result.as_str(), replacement);
        proof {
            assert(table_view(table@).take(k + 1).drop_last() =~= table_view(table@).take(k as int));
        }
        k = k + 1;
    }
    proof {
        assert(table_view(table@).take(table@.len() as int) =~= table_view(table@));
    }
    result
}

} // verus!

verus! {

/// `text` with the whole span of each match of `ms` replaced by the piece of
/// the same index (what `replace_all` with a closure gives, the closure
/// having produced `pieces`).
pub open spec fn splice_matches(text: Seq<char>, ms: Seq<Groups>, pieces: Seq<Seq<char>>) -> Seq<char>
    decreases ms.len(),
{
    if ms.len() == 0 || pieces.len() == 0 {
        text
    } else {
        let g = ms.last();
        splice_matches(text.take(span_start(g[0])), ms.drop_last(), pieces.drop_last()) + pieces.last()
            + text.skip(span_end(g[0]))
    }
}

/// The pieces of a vector of char vectors.
pub open spec fn pieces_view(v: Seq<Vec<char>>) -> Seq<Seq<char>> {
    v.map_values(|w: Vec<char>| w@)
}

/// Cutting the text after the last match does not change what comes before it.
proof fn lemma_splice_cut(t: Seq<char>, ms: Seq<Groups>, ps: Seq<Seq<char>>, e: int)
    requires
        0 <= e <= t.len(),
        ms.len() == ps.len(),
        forall|k: int| 0 <= k < ms.len() ==> 0 <= span_start((#[trigger] ms[k])[0]) <= span_end(ms[k][0]) <= e,
    ensures
        splice_matches(t, ms, ps) == splice_matches(t.take(e), ms, ps) + t.skip(e),
{
    if ms.len() == 0 {
        assert(t =~= t.take(e) + t.skip(e));
    } else {
        let g = ms.last();
        assert(ms[ms.len() - 1] == g);
        let a = span_start(g[0]);
        let b = span_end(g[0]);
        assert(t.take(e).take(a) =~= t.take(a));
        assert(t.skip(b) =~= t.take(e).skip(b) + t.skip(e));
        let left = splice_matches(t.take(a), ms.drop_last(), ps.drop_last()) + ps.last();
        assert(left + t.skip(b) =~= (left + t.take(e).skip(b)) + t.skip(e));
    }
}

/// Replaces the whole span of each match of `ms` in `text` by its piece.
pub fn splice_all(text: &Vec<char>, ms: &Vec<Vec<Option<(usize, usize)>>>, pieces: &Vec<Vec<char>>) -> (r: Vec<char>)
    requires
        well_formed_matches(matches_view(*ms), text@.len()),
        pieces@.len() == ms@.len(),
    ensures
        r@ == splice_matches(text@, matches_view(*ms), pieces_view(pieces@)),
{
    let ghost mv = matches_view(*ms);
    let ghost pv = pieces_view(pieces@);
    let mut out: Vec<char> = Vec::new();
    let mut prev: usize = 0;
    let mut i: usize = 0;
    proof {
        assert(mv.take(0) =~= Seq::<Groups>::empty());
        assert(pv.take(0) =~= Seq::<Seq<char>>::empty());
        assert(text@.take(0) =~= Seq::<char>::empty());
    }
    while i < ms.len()
        invariant
            mv == matches_view(*ms),
            pv == pieces_view(pieces@),
            pieces@.len() == ms@.len(),
            well_formed_matches(mv, text@.len()),
            i <= ms@.len(),
            prev <= text@.len(),
            i > 0 ==> prev == span_end(mv[i - 1][0]),
            i == 0 ==> prev == 0,
            forall|k: int| 0 <= k < i ==> 0 <= span_start((#[trigger] mv[k])[0]) <= span_end(mv[k][0]) <= prev,
            out@ == splice_matches(text@.take(prev as int), mv.take(i as int), pv.take(i as int)),
        decreases ms@.len() - i,
    {
        let g = &ms[i];
        proof {
            assert(mv[i as int] == g@);
            assert(well_formed_groups(g@, text@.len()));
            if i > 0 {
                assert(span_end(mv[i - 1][0]) <= span_start(mv[i as int][0]));
            }
        }
        let (a, b) = match g[0] {
            Some(span) => span,
            None => (0, 0),
        };
        let between = slice(text, prev, a);
        append(&mut out, &between);
        append(&mut out, &pieces[i]);
        proof {
            let t = text@.take(b as int);
            let mi = mv.take(i + 1);
            let pi = pv.take(i + 1);
            assert(mi.drop_last() =~= mv.take(i as int));
            assert(pi.drop_last() =~= pv.take(i as int));
            assert(mi.last() == mv[i as int]);
            assert(pi.last() == pieces@[i as int]@);
            assert(t.take(a as int) =~= text@.take(a as int));
            assert(t.skip(b as int) =~= Seq::<char>::empty());
            lemma_splice_cut(text@.take(a as int), mv.take(i as int), pv.take(i as int), prev as int);
            assert(text@.take(a as int).take(prev as int) =~= text@.take(prev as int));
            assert(text@.take(a as int).skip(prev as int) =~= between@);
            assert(out@ =~= splice_matches(text@.take(prev as int), mv.take(i as int), pv.take(i as int)) + between@ + pieces@[i as int]@);
        }
        prev = b;
        i = i + 1;
    }
    let tail = slice(text, prev, text.len());
    append(&mut out, &tail);
    proof {
        assert(mv.take(ms@.len() as int) =~= mv);
        assert(pv.take(ms@.len() as int) =~= pv);
        lemma_splice_cut(text@, mv, pv, prev as int);
        assert(tail@ =~= text@.skip(prev as int));
    }
    out
}

/// The text of group `k` of match `g` in `text` (empty when the group did not take part).
pub open spec fn group_text_of(text: Seq<char>, g: Groups, k: int) -> Seq<char> {
    text.subrange(span_start(group(g, k)), span_end(group(g, k)))
}

/// Exec form of `group_text_of`, for a well-formed match.
pub fn group_chars(text: &Vec<char>, g: &Vec<Option<(usize, usize)>>, k: usize) -> (r: Vec<char>)
    requires
        well_formed_groups(g@, text@.len()),
    ensures
        r@ == group_text_of(text@, g@, k as int),
{
    match group_at(g, k) {
        Some((a, b)) => {
            proof {
                assert(g@[k as int] is Some);
            }
            slice(text, a, b)
        },
        None => {
            proof {
                assert(text@.subrange(0, 0) =~= Seq::<char>::empty());
            }
            Vec::new()
        },
    }
}

} // verus!

