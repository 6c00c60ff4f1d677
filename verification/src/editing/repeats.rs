//! Detection of repeated word runs ("false starts"): a speaker begins a
//! phrase, stops, and says it again; the aborted attempt is dropped.
use vstd::prelude::*;

use crate::matching::{captures_all_in, matches_view, regex_captures_all, span_end, span_start, well_formed_matches, Groups};
use crate::text::{append, chars_eq, chars_of, slice, spec_lowercase, string_of, to_lowercase};

verus! {

/// One `\w+` word.
pub const WORD: &'static str = r"\w+";

/// The spans of the words of `text`.
pub open spec fn word_matches(text: Seq<char>) -> Seq<Groups> {
    regex_captures_all(WORD@, text)
}

/// The start of word `k`.
pub open spec fn word_start(ms: Seq<Groups>, k: int) -> int {
    span_start(ms[k][0])
}

/// The lowercased words of `text`.
pub open spec fn lowered_words(text: Seq<char>) -> Seq<Seq<char>> {
    let ms = word_matches(text);
    Seq::new(ms.len(), |k: int| spec_lowercase(text.subrange(span_start(ms[k][0]), span_end(ms[k][0]))))
}

/// Words `i..i+n` equal words `j..j+n`.
pub open spec fn same_run(w: Seq<Seq<char>>, i: int, j: int, n: int) -> bool {
    forall|k: int| 0 <= k < n ==> #[trigger] w[i + k] == w[j + k]
}

/// The `n` words from `i` come again at `j`, at most 10 words after the
/// end of the first run, with score `n / (j - i)` at least one half; a
/// single word counts only right after itself (or, with `wide`, one word
/// further on).
pub open spec fn candidate(w: Seq<Seq<char>>, i: int, j: int, n: int, wide: bool) -> bool {
    &&& 0 <= i
    &&& 1 <= n
    &&& i + n <= j
    &&& j + n <= w.len()
    &&& j <= i + n + 10
    &&& same_run(w, i, j, n)
    &&& 2 * n >= j - i
    &&& (n >= 2 || (if wide { j - i <= 2 } else { j - i == 1 }))
}

/// A repeat of `n` words at distance `d` beats one of `bn` words at
/// distance `bd`: a higher score `n / d`, or the same score with more words.
pub open spec fn better(n: int, d: int, bn: int, bd: int) -> bool {
    n * bd > bn * d || (n * bd == bn * d && n > bn)
}

/// The repeat at `j` of `n` words is a candidate that no candidate beats.
pub open spec fn is_best(w: Seq<Seq<char>>, i: int, j: int, n: int, wide: bool) -> bool {
    &&& candidate(w, i, j, n, wide)
    &&& forall|j2: int, n2: int| #[trigger] candidate(w, i, j2, n2, wide) ==> !better(n2, j2 - i, n, j - i)
}

/// Some repeat starts at word `i`.
pub open spec fn has_candidate(w: Seq<Seq<char>>, i: int, wide: bool) -> bool {
    exists|j: int, n: int| #[trigger] candidate(w, i, j, n, wide)
}

/// Where the best repeat from word `i` starts again.
pub open spec fn best_jump(w: Seq<Seq<char>>, i: int, wide: bool) -> int {
    (choose|j: int, n: int| is_best(w, i, j, n, wide)).0
}

/// The aborted runs, as (first word, word where the repeat starts), scanning from word `i`.
pub open spec fn aborted_runs(w: Seq<Seq<char>>, i: int, wide: bool) -> Seq<(int, int)>
    decreases w.len() - i,
{
    if i < 0 || i >= w.len() {
        seq![]
    } else if has_candidate(w, i, wide) {
        let j = best_jump(w, i, wide);
        if i < j <= w.len() {
            seq![(i, j)] + aborted_runs(w, j, wide)
        } else {
            seq![]
        }
    } else {
        aborted_runs(w, i + 1, wide)
    }
}

/// The text with each aborted run cut out: from the start of its first word
/// to the start of the word where the repeat begins.
pub open spec fn kept_text(text: Seq<char>, ms: Seq<Groups>, runs: Seq<(int, int)>, from: int) -> Seq<char>
    decreases runs.len(),
{
    if runs.len() == 0 {
        text.skip(from)
    } else {
        text.subrange(from, word_start(ms, runs[0].0)) + kept_text(text, ms, runs.drop_first(), word_start(ms, runs[0].1))
    }
}

/// `better` is transitive.
proof fn lemma_better_trans(a: int, da: int, b: int, db: int, c: int, dc: int)
    requires
        da > 0,
        db > 0,
        dc > 0,
        better(a, da, b, db),
        better(b, db, c, dc),
    ensures
        better(a, da, c, dc),
{
    if a * db > b * da && b * dc > c * db {
        assert(a * dc > c * da) by (nonlinear_arith)
            requires
                a * db > b * da,
                b * dc > c * db,
                da > 0,
                db > 0,
                dc > 0,
        ;
    } else if a * db > b * da {
        assert(a * dc > c * da) by (nonlinear_arith)
            requires
                a * db > b * da,
                b * dc == c * db,
                da > 0,
                db > 0,
                dc > 0,
        ;
    } else if b * dc > c * db {
        assert(a * dc > c * da) by (nonlinear_arith)
            requires
                a * db == b * da,
                b * dc > c * db,
                da > 0,
                db > 0,
                dc > 0,
        ;
    } else {
        assert(a * dc == c * da) by (nonlinear_arith)
            requires
                a * db == b * da,
                b * dc == c * db,
                da > 0,
                db > 0,
                dc > 0,
        ;
    }
}

/// Two candidates neither of which beats the other are the same.
proof fn lemma_better_total(w: Seq<Seq<char>>, i: int, j: int, n: int, j2: int, n2: int, wide: bool)
    requires
        candidate(w, i, j, n, wide),
        candidate(w, i, j2, n2, wide),
        !better(n, j - i, n2, j2 - i),
        !better(n2, j2 - i, n, j - i),
    ensures
        j == j2,
        n == n2,
{
    assert(n == n2);
    assert(n * (j2 - i) == n * (j - i));
    assert(j2 - i == j - i) by (nonlinear_arith)
        requires
            n * (j2 - i) == n * (j - i),
            n >= 1,
    ;
}

/// The best candidate is unique.
proof fn lemma_best_unique(w: Seq<Seq<char>>, i: int, j: int, n: int, wide: bool)
    requires
        is_best(w, i, j, n, wide),
    ensures
        best_jump(w, i, wide) == j,
        has_candidate(w, i, wide),
{
    assert(candidate(w, i, j, n, wide));
    let pick = choose|j2: int, n2: int| is_best(w, i, j2, n2, wide);
    assert(is_best(w, i, pick.0, pick.1, wide));
    assert(!better(pick.1, pick.0 - i, n, j - i));
    assert(!better(n, j - i, pick.1, pick.0 - i));
    lemma_better_total(w, i, j, n, pick.0, pick.1, wide);
}

pub open spec fn words_view(words: Vec<Vec<char>>) -> Seq<Seq<char>> {
    words@.map_values(|v: Vec<char>| v@)
}

/// Whether words `i..i+n` equal words `j..j+n`.
fn run_eq(words: &Vec<Vec<char>>, i: usize, j: usize, n: usize) -> (r: bool)
    requires
        i + n <= words@.len(),
        j + n <= words@.len(),
    ensures
        r == same_run(words_view(*words), i as int, j as int, n as int),
{
    let mut k: usize = 0;
    while k < n
        invariant
            k <= n,
            i + n <= words@.len(),
            j + n <= words@.len(),
            words@.len() == words.len(),
            forall|m: int| 0 <= m < k ==> #[trigger] words_view(*words)[i + m] == words_view(*words)[j + m],
        decreases n - k,
    {
        if !chars_eq(&words[i + k], &words[j + k]) {
            proof {
                assert(words_view(*words)[i + k] == words@[i + k]@);
                assert(words_view(*words)[j + k] == words@[j + k]@);
            }
            return false;
        }
        proof {
            assert(words_view(*words)[i + k] == words@[i + k]@);
            assert(words_view(*words)[j + k] == words@[j + k]@);
        }
        k += 1;
    }
    true
}

/// Exec form of `better`.
fn beats(n: usize, d: usize, bn: usize, bd: usize) -> (r: bool)
    ensures
        r == better(n as int, d as int, bn as int, bd as int),
{
    let (n64, d64, bn64, bd64) = (n as u64, d as u64, bn as u64, bd as u64);
    proof {
        lemma_u64_product(n64, bd64);
        lemma_u64_product(bn64, d64);
    }
    let lhs = (n64 as u128) * (bd64 as u128);
    let rhs = (bn64 as u128) * (d64 as u128);
    lhs > rhs || (lhs == rhs && n > bn)
}

proof fn lemma_u64_product(a: u64, b: u64)
    ensures
        (a as int) * (b as int) <= u128::MAX,
{
    assert((a as int) * (b as int) <= 0xffff_ffff_ffff_ffffint * 0xffff_ffff_ffff_ffffint) by (nonlinear_arith)
        requires
            0 <= a <= 0xffff_ffff_ffff_ffffint,
            0 <= b <= 0xffff_ffff_ffff_ffffint,
    ;
}

/// The best repeat of the words from `i`, if there is one.
fn find_best(words: &Vec<Vec<char>>, i: usize, wide: bool) -> (r: Option<(usize, usize)>)
    requires
        i < words@.len(),
    ensures
        match r {
            Some((j, n)) => is_best(words_view(*words), i as int, j as int, n as int, wide) && i < j,
            None => !has_candidate(words_view(*words), i as int, wide),
        },
{
    let ghost w = words_view(*words);
    let total = words.len();
    let mut best: Option<(usize, usize)> = None;
    let mut n = total - i;
    while n >= 1
        invariant
            w == words_view(*words),
            total == words@.len() == w.len(),
            i < total,
            n <= total - i,
            best matches Some((bj, bn)) ==> candidate(w, i as int, bj as int, bn as int, wide),
            forall|j2: int, n2: int| #[trigger] candidate(w, i as int, j2, n2, wide) && n2 > n ==> (best matches Some((bj, bn)) && !better(n2, j2 - i, bn as int, bj - i)),
        decreases n,
    {
        if i + n <= total - n {
            let lim = total - n;
            let max_j = if lim - (i + n) > 10 { i + n + 10 } else { lim };
            let mut j = i + n;
            while j <= max_j
                invariant
                    w == words_view(*words),
                    total == words@.len() == w.len(),
                    i < total,
                    1 <= n <= total - i,
                    i + n <= j <= max_j + 1,
                    max_j <= total - n,
                    max_j < usize::MAX,
                    max_j <= i + n + 10,
                    max_j == total - n || max_j == i + n + 10,
                    best matches Some((bj, bn)) ==> candidate(w, i as int, bj as int, bn as int, wide),
                    forall|j2: int, n2: int| #[trigger] candidate(w, i as int, j2, n2, wide) && (n2 > n || (n2 == n && j2 < j)) ==> (best matches Some((bj, bn)) && !better(n2, j2 - i, bn as int, bj - i)),
                decreases max_j + 1 - j,
            {
                if run_eq(words, i, j, n) {
                    let d = j - i;
                    if 2 * n >= d && (n >= 2 || (if wide { d <= 2 } else { d == 1 })) {
                        let take = match best {
                            None => true,
                            Some((bj, bn)) => beats(n, d, bn, bj - i),
                        };
                        if take {
                            proof {
                                assert forall|j2: int, n2: int| #[trigger] candidate(w, i as int, j2, n2, wide) && (n2 > n || (n2 == n && j2 < j + 1)) implies !better(n2, j2 - i, n as int, j - i) by {
                                    if n2 == n && j2 == j {
                                        assert(!better(n as int, d as int, n as int, d as int));
                                    } else {
                                        let (bj, bn) = best.unwrap();
                                        if better(n2, j2 - i, n as int, j - i) {
                                            lemma_better_trans(n2, j2 - i, n as int, j - i, bn as int, bj - i);
                                        }
                                    }
                                }
                            }
                            best = Some((j, n));
                        } else {
                            proof {
                                let (bj, bn) = best.unwrap();
                                assert(!better(n as int, j - i, bn as int, bj - i));
                            }
                        }
                    }
                }
                j += 1;
            }
            proof {
                assert forall|j2: int, n2: int| #[trigger] candidate(w, i as int, j2, n2, wide) && n2 > n - 1 implies (best matches Some((bj, bn)) && !better(n2, j2 - i, bn as int, bj - i)) by {
                    if n2 == n {
                        assert(j2 <= max_j);
                    }
                }
            }
        } else {
            proof {
                assert forall|j2: int, n2: int| #[trigger] candidate(w, i as int, j2, n2, wide) && n2 > n - 1 implies (best matches Some((bj, bn)) && !better(n2, j2 - i, bn as int, bj - i)) by {
                    if n2 == n {
                        assert(i + n2 <= j2);
                        assert(j2 + n2 <= total);
                        assert(false);
                    }
                }
            }
        }
        n -= 1;
    }
    match best {
        Some((bj, bn)) => {
            proof {
                assert(is_best(w, i as int, bj as int, bn as int, wide));
            }
            Some((bj, bn))
        },
        None => {
            proof {
                assert forall|j2: int, n2: int| !candidate(w, i as int, j2, n2, wide) by {
                    if candidate(w, i as int, j2, n2, wide) {
                        assert(n2 > 0);
                    }
                }
            }
            None
        },
    }
}

} // verus!

verus! {

/// Word starts never decrease.
proof fn lemma_word_starts_sorted(ms: Seq<Groups>, len: nat, a: int, b: int)
    requires
        well_formed_matches(ms, len),
        0 <= a <= b < ms.len(),
    ensures
        word_start(ms, a) <= word_start(ms, b),
    decreases b - a,
{
    if a < b {
        lemma_word_starts_sorted(ms, len, a, b - 1);
        assert(crate::matching::well_formed_groups(ms[b - 1], len));
        assert(span_end(ms[b - 1][0]) <= span_start(ms[b][0]));
    }
}

/// Runs are ordered, each inside the word list, and not overlapping.
pub open spec fn runs_ordered(runs: Seq<(int, int)>, words: int) -> bool {
    &&& forall|k: int| 0 <= k < runs.len() ==> 0 <= (#[trigger] runs[k]).0 < runs[k].1 < words
    &&& forall|k: int| 0 <= k < runs.len() - 1 ==> (#[trigger] runs[k]).1 <= runs[k + 1].0
}

pub open spec fn runs_view(runs: Vec<(usize, usize)>) -> Seq<(int, int)> {
    runs@.map_values(|r: (usize, usize)| (r.0 as int, r.1 as int))
}

/// The word spans of `text` and its lowercased words.
fn lowered_words_exec(text: &Vec<char>) -> (res: (Vec<Vec<char>>, Vec<Vec<Option<(usize, usize)>>>))
    ensures
        words_view(res.0) == lowered_words(text@),
        matches_view(res.1) == word_matches(text@),
        well_formed_matches(matches_view(res.1), text@.len()),
{
    let ms = captures_all_in(WORD, text);
    let mut words: Vec<Vec<char>> = Vec::new();
    let mut k: usize = 0;
    while k < ms.len()
        invariant
            k <= ms@.len(),
            matches_view(ms) == word_matches(text@),
            well_formed_matches(matches_view(ms), text@.len()),
            words@.len() == k,
            forall|m: int| 0 <= m < k ==> (#[trigger] words@[m])@ == lowered_words(text@)[m],
        decreases ms.len() - k,
    {
        proof {
            assert(matches_view(ms)[k as int] == ms@[k as int]@);
            assert(crate::matching::well_formed_groups(matches_view(ms)[k as int], text@.len()));
        }
        let (a, b) = match ms[k][0] {
            Some(span) => span,
            None => (0, 0),
        };
        let piece = slice(text, a, b);
        let s = string_of(&piece);
        let lower = to_lowercase(s.as_str());
        words.push(chars_of(lower.as_str()));
        k += 1;
    }
    proof {
        assert(words_view(words) =~= lowered_words(text@));
    }
    (words, ms)
}

/// The aborted runs of the words, scanning from the first.
fn aborted_runs_exec(words: &Vec<Vec<char>>, wide: bool) -> (runs: Vec<(usize, usize)>)
    ensures
        runs_view(runs) == aborted_runs(words_view(*words), 0, wide),
        runs_ordered(runs_view(runs), words@.len() as int),
{
    let ghost w = words_view(*words);
    let mut runs: Vec<(usize, usize)> = Vec::new();
    let mut i: usize = 0;
    while i < words.len()
        invariant
            w == words_view(*words),
            w.len() == words@.len(),
            i <= words@.len(),
            aborted_runs(w, 0, wide) == runs_view(runs) + aborted_runs(w, i as int, wide),
            runs_ordered(runs_view(runs), words@.len() as int),
            runs@.len() > 0 ==> runs@.last().1 <= i,
        decreases words.len() - i,
    {
        match find_best(words, i, wide) {
            Some((j, n)) => {
                proof {
                    lemma_best_unique(w, i as int, j as int, n as int, wide);
                    assert(aborted_runs(w, i as int, wide) == seq![(i as int, j as int)] + aborted_runs(w, j as int, wide));
                }
                let ghost prev = runs_view(runs);
                runs.push((i, j));
                proof {
                    assert(runs_view(runs) =~= prev.push((i as int, j as int)));
                    assert(aborted_runs(w, 0, wide) =~= runs_view(runs) + aborted_runs(w, j as int, wide));
                }
                i = j;
            },
            None => {
                i += 1;
            },
        }
    }
    runs
}

} // verus!

verus! {

proof fn lemma_kept_step(text: Seq<char>, mv: Seq<Groups>, rv: Seq<(int, int)>, k: int, from: int)
    requires
        0 <= k < rv.len(),
    ensures
        kept_text(text, mv, rv.skip(k), from) == text.subrange(from, word_start(mv, rv[k].0))
            + kept_text(text, mv, rv.skip(k + 1), word_start(mv, rv[k].1)),
{
    let rest = rv.skip(k);
    assert(rest[0] == rv[k]);
    assert(rest.drop_first() =~= rv.skip(k + 1));
}

/// The text with the aborted runs cut out.
fn kept_text_exec(text: &Vec<char>, ms: &Vec<Vec<Option<(usize, usize)>>>, runs: &Vec<(usize, usize)>) -> (out: Vec<char>)
    requires
        well_formed_matches(matches_view(*ms), text@.len()),
        runs_ordered(runs_view(*runs), ms@.len() as int),
    ensures
        out@ == kept_text(text@, matches_view(*ms), runs_view(*runs), 0),
{
    let ghost mv = matches_view(*ms);
    let ghost rv = runs_view(*runs);
    let mut out: Vec<char> = Vec::new();
    let mut last_end: usize = 0;
    let mut k: usize = 0;
    proof {
        assert(rv.skip(0) =~= rv);
        assert(out@ + kept_text(text@, mv, rv, 0) =~= kept_text(text@, mv, rv, 0));
    }
    while k < runs.len()
        invariant
            mv == matches_view(*ms),
            rv == runs_view(*runs),
            well_formed_matches(mv, text@.len()),
            runs_ordered(rv, ms@.len() as int),
            k <= runs@.len(),
            last_end <= text@.len(),
            k == 0 ==> last_end == 0,
            k > 0 ==> last_end == word_start(mv, rv[k - 1].1),
            kept_text(text@, mv, rv, 0) == out@ + kept_text(text@, mv, rv.skip(k as int), last_end as int),
        decreases runs.len() - k,
    {
        let (sw, ew) = runs[k];
        proof {
            assert(rv[k as int] == (sw as int, ew as int));
            assert(crate::matching::well_formed_groups(mv[sw as int], text@.len()));
            assert(crate::matching::well_formed_groups(mv[ew as int], text@.len()));
            assert(mv[sw as int] == ms@[sw as int]@);
            assert(mv[ew as int] == ms@[ew as int]@);
            if k > 0 {
                assert(rv[k - 1].1 <= rv[k as int].0);
                lemma_word_starts_sorted(mv, text@.len(), rv[k - 1].1, sw as int);
            }
        }
        let start = match ms[sw][0] {
            Some(span) => span.0,
            None => 0,
        };
        let next = match ms[ew][0] {
            Some(span) => span.0,
            None => 0,
        };
        let piece = slice(text, last_end, start);
        let ghost out0 = out@;
        append(&mut out, &piece);
        proof {
            lemma_kept_step(text@, mv, rv, k as int, last_end as int);
            assert(out0 + (piece@ + kept_text(text@, mv, rv.skip(k + 1), next as int)) =~= out@ + kept_text(text@, mv, rv.skip(k + 1), next as int));
        }
        last_end = next;
        k += 1;
    }
    let tail = slice(text, last_end, text.len());
    append(&mut out, &tail);
    proof {
        assert(rv.skip(k as int).len() == 0);
    }
    out
}

/// `t` with its first char ASCII-uppercased.
pub open spec fn upper_first_ascii(t: Seq<char>) -> Seq<char> {
    if t.len() > 0 {
        t.update(0, crate::text::spec_ascii_upper(t[0]))
    } else {
        t
    }
}

/// The text without its aborted runs (or the text itself when there are none).
pub open spec fn without_false_starts(text: Seq<char>, wide: bool) -> Option<Seq<char>> {
    let runs = aborted_runs(lowered_words(text), 0, wide);
    if lowered_words(text).len() == 0 || runs.len() == 0 {
        None
    } else {
        Some(kept_text(text, word_matches(text), runs, 0))
    }
}

/// Cuts the aborted runs out of `text`; `None` when there are none.
pub fn cut_false_starts(text: &Vec<char>, wide: bool) -> (r: Option<Vec<char>>)
    ensures
        match r {
            Some(v) => without_false_starts(text@, wide) == Some(v@),
            None => without_false_starts(text@, wide) is None,
        },
{
    let (words, ms) = lowered_words_exec(text);
    if words.len() == 0 {
        return None;
    }
    let runs = aborted_runs_exec(&words, wide);
    if runs.len() == 0 {
        return None;
    }
    proof {
        assert(words_view(words).len() == words@.len());
        assert(lowered_words(text@).len() == word_matches(text@).len());
        assert(matches_view(ms).len() == ms@.len());
    }
    Some(kept_text_exec(text, &ms, &runs))
}

/// ASCII-uppercases the first char.
pub fn upper_first_ascii_exec(t: &mut Vec<char>)
    ensures
        final(t)@ == upper_first_ascii(old(t)@),
{
    if t.len() > 0 {
        let c = crate::text::ascii_upper(t[0]);
        t.set(0, c);
    }
}

} // verus!
