use vstd::prelude::*;

use crate::pipeline::changes::{Change, ChangeKind, ChangeSet};
use crate::text::{
    append, byte_len, char_index_at_byte, chars_of, is_whitespace, lemma_utf8_len_prefix,
    lemma_utf8_len_prefix_mono, lemma_utf8_len_push, slice, spec_is_whitespace, string_of,
    utf8_len, words,
};

verus! {

/// How much of the previous buffer a streaming window takes in.
#[derive(Debug, Clone, Copy)]
pub enum WindowPolicy {
    /// A fixed number of words to look back.
    Fixed(usize),
    /// Back to the start of the current sentence.
    Sentence,
    /// Chosen as the text goes (for now ten words).
    Adaptive,
}

/// Whether char `i` of `s` begins a whitespace-separated word.
pub open spec fn is_word_start(s: Seq<char>, i: int) -> bool {
    &&& 0 <= i < s.len()
    &&& !spec_is_whitespace(s[i])
    &&& (i == 0 || spec_is_whitespace(s[i - 1]))
}

/// The char indices at which the words of `s` begin, in order.
pub open spec fn word_starts(s: Seq<char>) -> Seq<int>
    decreases s.len(),
{
    if s.len() == 0 {
        Seq::empty()
    } else {
        let w = word_starts(s.drop_last());
        if is_word_start(s, s.len() - 1) {
            w.push(s.len() - 1)
        } else {
            w
        }
    }
}

/// The char index just after the last `.`, `?` or `!` of `s` (0 when there is none).
pub open spec fn sentence_start(s: Seq<char>) -> int
    decreases s.len(),
{
    if s.len() == 0 {
        0
    } else if s.last() == '.' || s.last() == '?' || s.last() == '!' {
        s.len() as int
    } else {
        sentence_start(s.drop_last())
    }
}

/// `prefix` followed by `delta`, with one space between them when neither
/// side brings whitespace and the prefix is not empty.
pub open spec fn join_window(prefix: Seq<char>, delta: Seq<char>) -> Seq<char> {
    if prefix.len() > 0 && !spec_is_whitespace(prefix.last()) && !(delta.len() > 0
        && spec_is_whitespace(delta[0])) {
        prefix + seq![' '] + delta
    } else {
        prefix + delta
    }
}

/// The char index of `prev` at which the window of a `Fixed(n)` policy begins,
/// or `None` when it takes no word of `prev`.
pub open spec fn fixed_window_start(prev: Seq<char>, n: nat) -> Option<int> {
    let w = word_starts(prev);
    let take = if w.len() < n { w.len() } else { n };
    if take == 0 {
        None
    } else {
        Some(w[w.len() - take])
    }
}

/// The window that `policy` builds: its byte offset in `prev` and its text.
pub open spec fn spec_window(policy: WindowPolicy, prev: Seq<char>, delta: Seq<char>) -> (int, Seq<char>) {
    if prev.len() == 0 {
        (0, delta)
    } else {
        match policy {
            WindowPolicy::Sentence => {
                let k = sentence_start(prev);
                (utf8_len(prev.take(k)) as int, join_window(prev.skip(k), delta))
            },
            _ => {
                let n: nat = match policy {
                    WindowPolicy::Fixed(n) => n as nat,
                    _ => 10,
                };
                match fixed_window_start(prev, n) {
                    None => (utf8_len(prev) as int, delta),
                    Some(k) => (utf8_len(prev.take(k)) as int, join_window(prev.skip(k), delta)),
                }
            },
        }
    }
}

proof fn lemma_word_starts_bounds(s: Seq<char>)
    ensures
        forall|j: int| 0 <= j < word_starts(s).len() ==> #[trigger] is_word_start(s, word_starts(s)[j]),
        forall|j: int, l: int| 0 <= j < l < word_starts(s).len() ==> word_starts(s)[j] < word_starts(s)[l],
        forall|j: int| 0 <= j < word_starts(s).len() ==> 0 <= #[trigger] word_starts(s)[j] < s.len(),
    decreases s.len(),
{
    if s.len() > 0 {
        let t = s.drop_last();
        lemma_word_starts_bounds(t);
        assert forall|j: int| 0 <= j < word_starts(t).len() implies #[trigger] is_word_start(s, word_starts(t)[j]) by {
            assert(is_word_start(t, word_starts(t)[j]));
        }
    }
}

/// Builds streaming windows from a previous buffer and the text that follows it.
pub struct WindowBuilder {
    pub policy: WindowPolicy,
}

/// The number of word starts in `v`.
fn count_word_starts(v: &Vec<char>) -> (n: usize)
    ensures
        n == word_starts(v@).len(),
{
    let mut n: usize = 0;
    let mut i: usize = 0;
    proof {
        assert(v@.take(0) =~= Seq::<char>::empty());
    }
    while i < v.len()
        invariant
            i <= v@.len(),
            n == word_starts(v@.take(i as int)).len(),
            n <= i,
        decreases v@.len() - i,
    {
        let starts = !is_whitespace(v[i]) && (i == 0 || is_whitespace(v[i - 1]));
        proof {
            let t = v@.take(i + 1);
            assert(t.drop_last() =~= v@.take(i as int));
            assert(is_word_start(t, i as int) == starts);
        }
        if starts {
            n = n + 1;
        }
        i = i + 1;
    }
    proof {
        assert(v@.take(v@.len() as int) =~= v@);
    }
    n
}

/// The char index at which word `k` of `v` begins.
fn nth_word_start(v: &Vec<char>, k: usize) -> (i: usize)
    requires
        k < word_starts(v@).len(),
    ensures
        i == word_starts(v@)[k as int],
{
    let mut i: usize = 0;
    let mut seen: usize = 0;
    proof {
        assert(v@.take(0) =~= Seq::<char>::empty());
    }
    while i < v.len()
        invariant
            i <= v@.len(),
            k < word_starts(v@).len(),
            seen == word_starts(v@.take(i as int)).len(),
            seen <= k,
            word_starts(v@.take(i as int)) == word_starts(v@).take(seen as int),
        decreases v@.len() - i,
    {
        let starts = !is_whitespace(v[i]) && (i == 0 || is_whitespace(v[i - 1]));
        proof {
            let t = v@.take(i + 1);
            assert(t.drop_last() =~= v@.take(i as int));
            assert(is_word_start(t, i as int) == starts);
            lemma_word_starts_prefix(v@, i + 1);
        }
        if starts {
            if seen == k {
                proof {
                    assert(word_starts(v@.take(i + 1)) == word_starts(v@.take(i as int)).push(i as int));
                    assert(word_starts(v@.take(i + 1))[k as int] == i);
                }
                return i;
            }
            seen = seen + 1;
        }
        i = i + 1;
    }
    proof {
        assert(v@.take(v@.len() as int) =~= v@);
        assert(word_starts(v@) =~= word_starts(v@).take(seen as int));
    }
    0
}

/// The word starts of a prefix are a prefix of the word starts.
proof fn lemma_word_starts_prefix(s: Seq<char>, i: int)
    requires
        0 <= i <= s.len(),
    ensures
        word_starts(s.take(i)) == word_starts(s).take(word_starts(s.take(i)).len() as int),
        word_starts(s.take(i)).len() <= word_starts(s).len(),
    decreases s.len() - i,
{
    if i == s.len() {
        assert(s.take(i) =~= s);
        assert(word_starts(s) =~= word_starts(s).take(word_starts(s).len() as int));
    } else {
        lemma_word_starts_prefix(s, i + 1);
        let t = s.take(i + 1);
        assert(t.drop_last() =~= s.take(i));
        let a = word_starts(s.take(i));
        let b = word_starts(t);
        assert(b == a || b == a.push(i));
        assert(a =~= b.take(a.len() as int));
        assert(word_starts(s).take(b.len() as int).take(a.len() as int) =~= word_starts(s).take(a.len() as int));
    }
}

/// The char index just after the last sentence terminator of `v`.
fn last_sentence_start(v: &Vec<char>) -> (k: usize)
    ensures
        k == sentence_start(v@),
        k <= v@.len(),
{
    let mut i: usize = v.len();
    proof {
        assert(v@.take(v@.len() as int) =~= v@);
    }
    while i > 0
        invariant
            i <= v@.len(),
            sentence_start(v@) == sentence_start(v@.take(i as int)),
        decreases i,
    {
        let c = v[i - 1];
        proof {
            assert(v@.take(i as int).drop_last() =~= v@.take(i - 1));
            assert(v@.take(i as int).last() == c);
        }
        if c == '.' || c == '?' || c == '!' {
            return i;
        }
        i = i - 1;
    }
    proof {
        assert(v@.take(0) =~= Seq::<char>::empty());
    }
    0
}

/// Exec form of `join_window`.
fn join(prefix: &Vec<char>, delta: &Vec<char>) -> (r: Vec<char>)
    ensures
        r@ == join_window(prefix@, delta@),
{
    let mut r: Vec<char> = Vec::new();
    append(&mut r, prefix);
    if prefix.len() > 0 && !is_whitespace(prefix[prefix.len() - 1]) && !(delta.len() > 0
        && is_whitespace(delta[0])) {
        r.push(' ');
    }
    append(&mut r, delta);
    proof {
        assert(prefix@.len() > 0 ==> prefix@.last() == prefix@[prefix@.len() - 1]);
    }
    r
}

impl WindowBuilder {
    pub fn new(policy: WindowPolicy) -> (b: Self)
        ensures
            b.policy == policy,
    {
        Self { policy }
    }

    /// Joins the tail of `previous_buffer` that the policy takes with `delta`,
    /// and gives the byte offset in `previous_buffer` at which that tail begins.
    pub fn build_window(&self, previous_buffer: &str, delta: &str) -> (r: (usize, String))
        ensures
            r.0 as int == spec_window(self.policy, previous_buffer@, delta@).0,
            r.1@ == spec_window(self.policy, previous_buffer@, delta@).1,
    {
        let prev = chars_of(previous_buffer);
        let d = chars_of(delta);
        let total = byte_len(previous_buffer);
        if prev.len() == 0 {
            return (0, string_of(&d));
        }
        let k: usize = match self.policy {
            WindowPolicy::Sentence => last_sentence_start(&prev),
            _ => {
                let n: usize = match self.policy {
                    WindowPolicy::Fixed(n) => n,
                    _ => 10,
                };
                let count = count_word_starts(&prev);
                let take = if count < n { count } else { n };
                if take == 0 {
                    return (total, string_of(&d));
                }
                proof {
                    lemma_word_starts_bounds(prev@);
                }
                nth_word_start(&prev, count - take)
            },
        };
        proof {
            if !(self.policy is Sentence) {
                lemma_word_starts_bounds(prev@);
            }
        }
        let offset = crate::text::byte_offset(&prev, k);
        let prefix = slice(&prev, k, prev.len());
        proof {
            assert(prefix@ =~= prev@.skip(k as int));
        }
        let w = join(&prefix, &d);
        (offset, string_of(&w))
    }
}

/// Whether byte offset `b` of the UTF-8 form of `s` falls between two chars.
pub open spec fn is_char_boundary(s: Seq<char>, b: int) -> bool {
    exists|k: int| 0 <= k <= s.len() && utf8_len(s.take(k)) == b
}

/// The char index at byte offset `b` of `s` (meaningful where `b` is a char boundary).
pub open spec fn char_at_byte(s: Seq<char>, b: int) -> int {
    choose|k: int| 0 <= k <= s.len() && utf8_len(s.take(k)) == b
}

/// The chars of `s` before byte offset `b`.
pub open spec fn byte_prefix(s: Seq<char>, b: int) -> Seq<char> {
    s.take(char_at_byte(s, b))
}

/// The chars of `s` between byte offsets `a` and `b`.
pub open spec fn byte_range(s: Seq<char>, a: int, b: int) -> Seq<char> {
    s.subrange(char_at_byte(s, a), char_at_byte(s, b))
}

/// `s` with the bytes from `a` to `b` replaced by `ins`.
pub open spec fn splice(s: Seq<char>, a: int, b: int, ins: Seq<char>) -> Seq<char> {
    s.take(char_at_byte(s, a)) + ins + s.skip(char_at_byte(s, b))
}

/// A longer prefix has strictly more bytes.
proof fn lemma_prefix_strict(s: Seq<char>, a: int, b: int)
    requires
        0 <= a < b <= s.len(),
    ensures
        utf8_len(s.take(a)) < utf8_len(s.take(b)),
{
    assert(s.take(a + 1) =~= s.take(a).push(s[a]));
    lemma_utf8_len_push(s.take(a), s[a]);
    lemma_utf8_len_prefix_mono(s, a + 1, b);
}

/// Distinct char indices have distinct byte offsets.
proof fn lemma_char_at_byte(s: Seq<char>, k: int)
    requires
        0 <= k <= s.len(),
    ensures
        is_char_boundary(s, utf8_len(s.take(k)) as int),
        char_at_byte(s, utf8_len(s.take(k)) as int) == k,
{
    let b = utf8_len(s.take(k)) as int;
    assert(0 <= k <= s.len() && utf8_len(s.take(k)) == b);
    let c = char_at_byte(s, b);
    if c < k {
        lemma_prefix_strict(s, c, k);
    } else if c > k {
        lemma_prefix_strict(s, k, c);
    }
}

/// The bytes of a text split at char `k`.
proof fn lemma_split_len(s: Seq<char>, k: int)
    requires
        0 <= k <= s.len(),
    ensures
        utf8_len(s) == utf8_len(s.take(k)) + utf8_len(s.skip(k)),
{
    crate::text::lemma_encode_concat(s.take(k), s.skip(k));
    assert(s.take(k) + s.skip(k) =~= s);
}

/// The char index of a char boundary.
fn boundary_index(v: &Vec<char>, b: usize) -> (k: usize)
    requires
        utf8_len(v@) <= usize::MAX,
        is_char_boundary(v@, b as int),
    ensures
        k == char_at_byte(v@, b as int),
        k <= v@.len(),
        utf8_len(v@.take(k as int)) == b,
{
    match char_index_at_byte(v, b) {
        Some(k) => {
            proof {
                lemma_char_at_byte(v@, k as int);
            }
            k
        },
        None => {
            proof {
                let w = choose|k: int| 0 <= k <= v@.len() && utf8_len(v@.take(k)) == b;
                assert(utf8_len(v@.take(w)) != b);
            }
            0
        },
    }
}

/// `v` with the bytes from `a` to `b` replaced by `ins`, and the byte length of the result.
fn splice_exec(v: &Vec<char>, v_len: usize, a: usize, b: usize, ins: &Vec<char>, ins_len: usize) -> (r: (Vec<char>, usize))
    requires
        v_len == utf8_len(v@),
        ins_len == utf8_len(ins@),
        a <= b <= v_len,
        is_char_boundary(v@, a as int),
        is_char_boundary(v@, b as int),
        v_len - (b - a) + ins_len <= usize::MAX,
    ensures
        r.0@ == splice(v@, a as int, b as int, ins@),
        r.1 == utf8_len(r.0@),
        r.1 == v_len - (b - a) + ins_len,
{
    let ka = boundary_index(v, a);
    let kb = boundary_index(v, b);
    let mut out = slice(v, 0, ka);
    append(&mut out, ins);
    let tail = slice(v, kb, v.len());
    append(&mut out, &tail);
    proof {
        assert(v@.subrange(0, ka as int) =~= v@.take(ka as int));
        assert(tail@ =~= v@.skip(kb as int));
        lemma_split_len(v@, kb as int);
        crate::text::lemma_encode_concat(v@.take(ka as int), ins@);
        crate::text::lemma_encode_concat(v@.take(ka as int) + ins@, v@.skip(kb as int));
    }
    (out, v_len - (b - a) + ins_len)
}

/// Merges formatted windows back and applies change sets.
pub struct MergeEngine;

/// A position of the text before the changes, moved by `shift` bytes and clamped at 0.
pub open spec fn adjusted(p: usize, shift: int) -> int {
    let raw = (p as isize) as int + shift;
    if raw < 0 {
        0
    } else {
        raw
    }
}

/// Whether `x` fits in an `isize`.
pub open spec fn fits_isize(x: int) -> bool {
    isize::MIN <= x <= isize::MAX
}

/// Where moved text goes once the bytes from `s` to `e` are taken out: a
/// target after them moves back by their length, a target before them
/// stays, and a target inside them moves back by their length too (not
/// below the start of the text).
pub open spec fn move_target(to: int, s: int, e: int) -> int {
    if to >= e {
        to - (e - s)
    } else if to > s {
        if to >= e - s {
            to - (e - s)
        } else {
            0
        }
    } else {
        to
    }
}

/// `cur` after applying `c`, where `l0` is the byte length of the text the
/// change set was made for: positions are shifted by how much the text has
/// grown since, and a change whose range falls outside the text is skipped.
pub open spec fn apply_change(l0: int, cur: Seq<char>, c: Change) -> Seq<char> {
    let shift = utf8_len(cur) - l0;
    let len = utf8_len(cur) as int;
    let s = adjusted(c.range.start, shift);
    let e = adjusted(c.range.end, shift);
    let in_bounds = s <= len && e <= len && s <= e;
    match c.kind {
        ChangeKind::Replace { replacement } => if in_bounds {
            splice(cur, s, e, replacement@)
        } else {
            cur
        },
        ChangeKind::Insert { text } => if s <= len {
            splice(cur, s, s, text@)
        } else {
            cur
        },
        ChangeKind::Delete => if in_bounds {
            splice(cur, s, e, Seq::empty())
        } else {
            cur
        },
        ChangeKind::Move { to_offset } => if in_bounds {
            let removed = splice(cur, s, e, Seq::empty());
            let to = move_target(adjusted(to_offset, shift), s, e);
            if to <= utf8_len(removed) {
                splice(removed, to, to, byte_range(cur, s, e))
            } else {
                removed
            }
        } else {
            cur
        },
    }
}

/// Whether applying `c` to `cur` stays within `isize` arithmetic and cuts the
/// text only between chars (where `String::replace_range` and
/// `String::insert_str` would panic otherwise).
pub open spec fn change_applies(l0: int, cur: Seq<char>, c: Change) -> bool {
    let shift = utf8_len(cur) - l0;
    let len = utf8_len(cur) as int;
    let s = adjusted(c.range.start, shift);
    let e = adjusted(c.range.end, shift);
    let in_bounds = s <= len && e <= len && s <= e;
    &&& fits_isize((c.range.start as isize) as int + shift)
    &&& (c.kind is Insert || fits_isize((c.range.end as isize) as int + shift))
    &&& match c.kind {
        ChangeKind::Insert { .. } => s <= len ==> is_char_boundary(cur, s),
        ChangeKind::Move { to_offset } => in_bounds ==> {
            let removed = splice(cur, s, e, Seq::empty());
            let to = move_target(adjusted(to_offset, shift), s, e);
            &&& is_char_boundary(cur, s)
            &&& is_char_boundary(cur, e)
            &&& fits_isize((to_offset as isize) as int + shift)
            &&& (to <= utf8_len(removed) ==> is_char_boundary(removed, to))
        },
        _ => in_bounds ==> is_char_boundary(cur, s) && is_char_boundary(cur, e),
    }
    &&& utf8_len(apply_change(l0, cur, c)) <= isize::MAX
}

/// `cur` after applying the changes `cs` in order.
pub open spec fn apply_changes(l0: int, cur: Seq<char>, cs: Seq<Change>) -> Seq<char>
    decreases cs.len(),
{
    if cs.len() == 0 {
        cur
    } else {
        apply_changes(l0, apply_change(l0, cur, cs[0]), cs.drop_first())
    }
}

/// Whether every change of `cs` applies in turn.
pub open spec fn changes_apply(l0: int, cur: Seq<char>, cs: Seq<Change>) -> bool
    decreases cs.len(),
{
    cs.len() == 0 || (change_applies(l0, cur, cs[0]) && changes_apply(
        l0,
        apply_change(l0, cur, cs[0]),
        cs.drop_first(),
    ))
}

/// Exec form of `adjusted`.
fn adjust(p: usize, shift: isize) -> (r: usize)
    requires
        fits_isize((p as isize) as int + shift),
    ensures
        r == adjusted(p, shift as int),
{
    let raw: isize = p as isize + shift;
    if raw < 0 {
        0
    } else {
        raw as usize
    }
}

/// What merging a formatted window gives: the part of `prev` before byte
/// `start`, followed by the window (all of `prev` when `start` is its end;
/// just the window when `start` lies past the end of `prev`).
pub open spec fn spec_merge(prev: Seq<char>, window: Seq<char>, start: int) -> Seq<char> {
    if start > utf8_len(prev) {
        window
    } else {
        byte_prefix(prev, start) + window
    }
}


/// `sentence_start` is just after the last '.', '?' or '!' of the text, and
/// at 0 when there is none.
proof fn lemma_sentence_start_last_terminator(s: Seq<char>)
    ensures
        0 <= sentence_start(s) <= s.len(),
        sentence_start(s) > 0 ==> s[sentence_start(s) - 1] == '.' || s[sentence_start(s) - 1] == '?' || s[sentence_start(s) - 1] == '!',
        forall|j: int| sentence_start(s) <= j < s.len() ==> #[trigger] s[j] != '.' && s[j] != '?' && s[j] != '!',
    decreases s.len(),
{
    if s.len() > 0 {
        lemma_sentence_start_last_terminator(s.drop_last());
        assert forall|j: int| sentence_start(s) <= j < s.len() implies #[trigger] s[j] != '.' && s[j] != '?' && s[j] != '!' by {
            if j < s.len() - 1 {
                assert(s.drop_last()[j] == s[j]);
            }
        }
        if sentence_start(s) > 0 && sentence_start(s) < s.len() {
            assert(s.drop_last()[sentence_start(s) - 1] == s[sentence_start(s) - 1]);
        }
    }
}

/// The sentence window over a non-empty buffer starts just after the last
/// sentence terminator of the buffer ('.', '?' or '!'), or at its start when
/// it has none: its offset is the byte length of the buffer up to there, and
/// its text is the rest of the buffer followed by the delta, with one space
/// between them when the rest is not empty, does not end in whitespace and
/// the delta does not start with whitespace.
pub proof fn lemma_sentence_window(prev: Seq<char>, delta: Seq<char>)
    requires
        prev.len() > 0,
    ensures
        exists|k: int| #![trigger prev.skip(k)]
            0 <= k <= prev.len()
                && (k > 0 ==> prev[k - 1] == '.' || prev[k - 1] == '?' || prev[k - 1] == '!')
                && (forall|j: int| k <= j < prev.len() ==> #[trigger] prev[j] != '.' && prev[j] != '?' && prev[j] != '!')
                && spec_window(WindowPolicy::Sentence, prev, delta).0 == utf8_len(prev.take(k)) as int
                && spec_window(WindowPolicy::Sentence, prev, delta).1 == (if prev.skip(k).len() > 0
                    && !spec_is_whitespace(prev.skip(k).last()) && !(delta.len() > 0 && spec_is_whitespace(delta[0])) {
                    prev.skip(k) + seq![' '] + delta
                } else {
                    prev.skip(k) + delta
                }),
{
    lemma_sentence_start_last_terminator(prev);
    let k = sentence_start(prev);
    assert(prev.skip(k) == prev.skip(k));
}

/// A sentence starts within the text.
proof fn lemma_sentence_start_bounds(s: Seq<char>)
    ensures
        0 <= sentence_start(s) <= s.len(),
    decreases s.len(),
{
    if s.len() > 0 {
        lemma_sentence_start_bounds(s.drop_last());
    }
}

/// A streaming step that leaves its window unformatted changes nothing:
/// merging the window back gives the previous buffer followed by the delta
/// (joined by a space where the window put one), and the window starts on a
/// char boundary.
pub proof fn lemma_unformatted_window_round_trip(policy: WindowPolicy, prev: Seq<char>, delta: Seq<char>)
    ensures
        spec_window(policy, prev, delta).0 <= utf8_len(prev),
        is_char_boundary(prev, spec_window(policy, prev, delta).0),
        spec_merge(prev, spec_window(policy, prev, delta).1, spec_window(policy, prev, delta).0) == (if prev.len() > 0
            && spec_window(policy, prev, delta).0 == utf8_len(prev) {
            prev + delta
        } else {
            join_window(prev, delta)
        }),
{
    lemma_char_at_byte(prev, prev.len() as int);
    assert(prev.take(prev.len() as int) =~= prev);
    if prev.len() == 0 {
        assert(join_window(prev, delta) =~= delta);
        lemma_char_at_byte(prev, 0);
        assert(prev.take(0) =~= prev);
    } else {
        let k: int = match policy {
            WindowPolicy::Sentence => sentence_start(prev),
            _ => {
                let n: nat = match policy {
                    WindowPolicy::Fixed(n) => n as nat,
                    _ => 10,
                };
                match fixed_window_start(prev, n) {
                    None => prev.len() as int,
                    Some(k) => k,
                }
            },
        };
        lemma_sentence_start_bounds(prev);
        lemma_word_starts_bounds(prev);
        assert(0 <= k <= prev.len());
        assert(spec_window(policy, prev, delta).0 == utf8_len(prev.take(k)) as int);
        lemma_char_at_byte(prev, k);
        lemma_utf8_len_prefix(prev, k);
        let tail = prev.skip(k);
        assert(prev.take(k) + tail =~= prev);
        if k == prev.len() {
            assert(tail.len() == 0);
            assert(join_window(tail, delta) =~= delta);
            assert(spec_window(policy, prev, delta).1 == delta);
        } else {
            lemma_prefix_strict(prev, k, prev.len() as int);
            assert(spec_window(policy, prev, delta).1 == join_window(prev.skip(k), delta));
            assert(tail.last() == prev.last());
            assert(prev.take(k) + (tail + seq![' '] + delta) =~= prev + seq![' '] + delta);
            assert(prev.take(k) + (tail + delta) =~= prev + delta);
        }
    }
}

impl MergeEngine {
    pub fn new() -> (m: Self) {
        Self
    }

    /// The part of `previous_buffer` before `window_start`, followed by the
    /// formatted window (just the window when it starts past the end).
    pub fn merge(&self, previous_buffer: &str, formatted_window: &str, window_start: usize) -> (r: String)
        requires
            window_start > utf8_len(previous_buffer@) || is_char_boundary(
                previous_buffer@,
                window_start as int,
            ),
        ensures
            r@ == spec_merge(previous_buffer@, formatted_window@, window_start as int),
    {
        let len = byte_len(previous_buffer);
        let fw = chars_of(formatted_window);
        if window_start > len {
            return string_of(&fw);
        }
        let prev = chars_of(previous_buffer);
        let k = boundary_index(&prev, window_start);
        let mut out = slice(&prev, 0, k);
        append(&mut out, &fw);
        proof {
            assert(prev@.subrange(0, k as int) =~= prev@.take(k as int));
        }
        string_of(&out)
    }

    /// Applies the changes of `changeset` to `text` in order; each change's
    /// byte positions are moved by how much the text has grown or shrunk.
    pub fn apply_changeset(&self, text: &str, changeset: &ChangeSet) -> (r: String)
        requires
            utf8_len(text@) <= isize::MAX,
            changes_apply(utf8_len(text@) as int, text@, changeset.changes@),
        ensures
            r@ == apply_changes(utf8_len(text@) as int, text@, changeset.changes@),
    {
        let ghost l0 = utf8_len(text@) as int;
        let ghost cs = changeset.changes@;
        let mut cur = chars_of(text);
        let mut cur_len = byte_len(text);
        let mut shift: isize = 0;
        let mut i: usize = 0;
        proof {
            assert(cs.skip(0) =~= cs);
        }
        while i < changeset.changes.len()
            invariant
                cs == changeset.changes@,
                i <= cs.len(),
                l0 == utf8_len(text@),
                cur_len == utf8_len(cur@),
                cur_len <= isize::MAX,
                shift == cur_len - l0,
                changes_apply(l0, cur@, cs.skip(i as int)),
                apply_changes(l0, text@, cs) == apply_changes(l0, cur@, cs.skip(i as int)),
            decreases cs.len() - i,
        {
            let change = &changeset.changes[i];
            proof {
                assert(cs.skip(i as int)[0] == cs[i as int]);
                assert(cs.skip(i as int).drop_first() =~= cs.skip(i + 1));
            }
            let ghost before = cur@;
            let ghost after = apply_change(l0, before, *change);
            let s = adjust(change.range.start, shift);
            match &change.kind {
                ChangeKind::Insert { text: ins } => {
                    if s <= cur_len {
                        let ins_chars = chars_of(ins);
                        let ins_len = byte_len(ins);
                        proof {
                            crate::text::lemma_encode_concat(before.take(char_at_byte(before, s as int)), ins@);
                            crate::text::lemma_encode_concat(before.take(char_at_byte(before, s as int)) + ins@, before.skip(char_at_byte(before, s as int)));
                        }
                        let (next, next_len) = splice_exec(&cur, cur_len, s, s, &ins_chars, ins_len);
                        shift = shift + ins_len as isize;
                        cur = next;
                        cur_len = next_len;
                    }
                },
                ChangeKind::Replace { replacement } => {
                    let e = adjust(change.range.end, shift);
                    if s <= cur_len && e <= cur_len && s <= e {
                        let rep = chars_of(replacement);
                        let rep_len = byte_len(replacement);
                        proof {
                            crate::text::lemma_encode_concat(before.take(char_at_byte(before, s as int)), rep@);
                            crate::text::lemma_encode_concat(before.take(char_at_byte(before, s as int)) + rep@, before.skip(char_at_byte(before, e as int)));
                        }
                        let (next, next_len) = splice_exec(&cur, cur_len, s, e, &rep, rep_len);
                        shift = shift + (rep_len as isize - (e - s) as isize);
                        cur = next;
                        cur_len = next_len;
                    }
                },
                ChangeKind::Delete => {
                    let e = adjust(change.range.end, shift);
                    if s <= cur_len && e <= cur_len && s <= e {
                        let empty: Vec<char> = Vec::new();
                        proof {
                            assert(vstd::utf8::encode_utf8(empty@) =~= Seq::<u8>::empty());
                        }
                        let (next, next_len) = splice_exec(&cur, cur_len, s, e, &empty, 0);
                        shift = shift - (e - s) as isize;
                        cur = next;
                        cur_len = next_len;
                    }
                },
                ChangeKind::Move { to_offset } => {
                    let e = adjust(change.range.end, shift);
                    if s <= cur_len && e <= cur_len && s <= e {
                        let ks = boundary_index(&cur, s);
                        let ke = boundary_index(&cur, e);
                        proof {
                            if ke < ks {
                                lemma_prefix_strict(cur@, ke as int, ks as int);
                            }
                        }
                        let moved = slice(&cur, ks, ke);
                        proof {
                            assert(cur@.take(ke as int) =~= cur@.take(ks as int) + moved@);
                            crate::text::lemma_encode_concat(cur@.take(ks as int), moved@);
                        }
                        let empty: Vec<char> = Vec::new();
                        proof {
                            assert(vstd::utf8::encode_utf8(empty@) =~= Seq::<u8>::empty());
                        }
                        let base = adjust(*to_offset, shift);
                        let to = if base >= e {
                            base - (e - s)
                        } else if base > s {
                            if base >= e - s {
                                base - (e - s)
                            } else {
                                0
                            }
                        } else {
                            base
                        };
                        let (removed, removed_len) = splice_exec(&cur, cur_len, s, e, &empty, 0);
                        shift = shift - (e - s) as isize;
                        if to <= removed_len {
                            let ghost r = removed@;
                            proof {
                                let kt = char_at_byte(r, to as int);
                                assert(is_char_boundary(r, to as int));
                                lemma_split_len(r, kt);
                                crate::text::lemma_encode_concat(r.take(kt), moved@);
                                crate::text::lemma_encode_concat(r.take(kt) + moved@, r.skip(kt));
                                assert(utf8_len(removed@) + (e - s) == utf8_len(after));
                            }
                            let (next, next_len) = splice_exec(&removed, removed_len, to, to, &moved, e - s);
                            shift = shift + (e - s) as isize;
                            cur = next;
                            cur_len = next_len;
                        } else {
                            cur = removed;
                            cur_len = removed_len;
                        }
                    }
                },
            }
            proof {
                assert(cur@ == after);
            }
            i = i + 1;
        }
        string_of(&cur)
    }
}

/// Decides when a streamed piece of text has settled.
pub struct StabilizationEngine {
    pub delay_ms: u64,
}

impl StabilizationEngine {
    pub fn new(delay_ms: u64) -> (e: Self)
        ensures
            e.delay_ms == delay_ms,
    {
        Self { delay_ms }
    }

    /// A piece is stable once it ends a sentence or has waited `delay_ms`.
    pub fn is_stable(&self, delta: &str, age_ms: u64) -> (r: bool)
        ensures
            r == ((delta@.len() > 0 && (delta@.last() == '.' || delta@.last() == '?'
                || delta@.last() == '!')) || age_ms >= self.delay_ms),
    {
        let d = chars_of(delta);
        if d.len() > 0 {
            let c = d[d.len() - 1];
            if c == '.' || c == '?' || c == '!' {
                return true;
            }
        }
        age_ms >= self.delay_ms
    }
}


/// The text a change puts in place of its range.
pub open spec fn change_text(c: Change) -> Seq<char> {
    match c.kind {
        ChangeKind::Replace { replacement } => replacement@,
        ChangeKind::Insert { text } => text@,
        _ => Seq::empty(),
    }
}

/// Where a change's range ends (an insertion's ends where it starts).
pub open spec fn change_end(c: Change) -> int {
    if c.kind is Insert {
        c.range.start as int
    } else {
        c.range.end as int
    }
}

/// `t` from char `from` on, with the changes `cs` made at their places in `t`.
pub open spec fn in_place(t: Seq<char>, cs: Seq<Change>, from: int) -> Seq<char>
    decreases cs.len(),
{
    if cs.len() == 0 {
        t.skip(from)
    } else {
        let a = char_at_byte(t, cs[0].range.start as int);
        let b = char_at_byte(t, change_end(cs[0]));
        t.subrange(from, a) + change_text(cs[0]) + in_place(t, cs.drop_first(), b)
    }
}

/// The bytes that the changes `cs` put in, all told.
pub open spec fn inserted_len(cs: Seq<Change>) -> nat
    decreases cs.len(),
{
    if cs.len() == 0 {
        0
    } else {
        utf8_len(change_text(cs[0])) + inserted_len(cs.drop_first())
    }
}

/// Whether the changes `cs` replace, insert or delete (none moves) within
/// `t`, between chars, in ascending order without overlapping, all at or
/// after byte `from`.
pub open spec fn ascending_changes(t: Seq<char>, cs: Seq<Change>, from: int) -> bool {
    &&& forall|k: int| 0 <= k < cs.len() ==> !((#[trigger] cs[k]).kind is Move)
    &&& forall|k: int| 0 <= k < cs.len() ==> from <= (#[trigger] cs[k]).range.start <= change_end(cs[k]) <= utf8_len(t)
    &&& forall|k: int| 0 <= k < cs.len() ==> is_char_boundary(t, (#[trigger] cs[k]).range.start as int)
        && is_char_boundary(t, change_end(cs[k]))
    &&& forall|j: int, k: int| 0 <= j < k < cs.len() ==> change_end(#[trigger] cs[j]) <= (#[trigger] cs[k]).range.start
}

/// A byte offset of `x` shifted past `p` is a char boundary of `p + x`, at
/// the matching char.
proof fn lemma_boundary_in_concat(p: Seq<char>, x: Seq<char>, j: int)
    requires
        0 <= j <= x.len(),
    ensures
        is_char_boundary(p + x, (utf8_len(p) + utf8_len(x.take(j))) as int),
        char_at_byte(p + x, (utf8_len(p) + utf8_len(x.take(j))) as int) == p.len() + j,
{
    assert((p + x).take(p.len() + j) =~= p + x.take(j));
    crate::text::lemma_encode_concat(p, x.take(j));
    lemma_char_at_byte(p + x, p.len() + j);
}

/// A char boundary `a` at or after char `from` of `t`, counted from `from`.
proof fn lemma_skip_prefix_len(t: Seq<char>, from: int, a: int)
    requires
        0 <= from <= a <= t.len(),
    ensures
        utf8_len(t.skip(from).take(a - from)) == utf8_len(t.take(a)) - utf8_len(t.take(from)),
        t.skip(from).take(a - from) == t.subrange(from, a),
{
    assert(t.take(a) =~= t.take(from) + t.skip(from).take(a - from));
    crate::text::lemma_encode_concat(t.take(from), t.skip(from).take(a - from));
    assert(t.skip(from).take(a - from) =~= t.subrange(from, a));
}

/// The char index of a char boundary lies within the text and gives it back.
proof fn lemma_boundary_index(t: Seq<char>, b: int)
    requires
        is_char_boundary(t, b),
    ensures
        0 <= char_at_byte(t, b) <= t.len(),
        utf8_len(t.take(char_at_byte(t, b))) == b,
{
}

/// Applying ascending changes to `p` followed by the rest of `t` from char
/// `from` puts each at its place in `t`.
proof fn lemma_changes_in_place(t: Seq<char>, p: Seq<char>, from: int, cs: Seq<Change>)
    requires
        0 <= from <= t.len(),
        utf8_len(t) <= isize::MAX,
        ascending_changes(t, cs, utf8_len(t.take(from)) as int),
    ensures
        apply_changes(utf8_len(t) as int, p + t.skip(from), cs) == p + in_place(t, cs, from),
        utf8_len(p) + utf8_len(t.skip(from)) + inserted_len(cs) <= isize::MAX ==> changes_apply(
            utf8_len(t) as int,
            p + t.skip(from),
            cs,
        ),
    decreases cs.len(),
{
    let l0 = utf8_len(t) as int;
    let cur = p + t.skip(from);
    if cs.len() == 0 {
        return;
    }
    let c = cs[0];
    let bf = utf8_len(t.take(from)) as int;
    lemma_split_len(t, from);
    crate::text::lemma_encode_concat(p, t.skip(from));
    let shift = utf8_len(cur) - l0;
    assert(shift == utf8_len(p) - bf);
    let a = char_at_byte(t, c.range.start as int);
    let b = char_at_byte(t, change_end(c));
    lemma_boundary_index(t, c.range.start as int);
    lemma_boundary_index(t, change_end(c));
    if a < from {
        lemma_prefix_strict(t, a, from);
    }
    if b < a {
        lemma_prefix_strict(t, b, a);
    }
    assert(from <= a <= b);
    let st = c.range.start;
    assert((st as isize) as int == st);
    let en = c.range.end;
    if !(c.kind is Insert) {
        assert((en as isize) as int == en);
    }
    let x = t.skip(from);
    lemma_skip_prefix_len(t, from, a);
    lemma_skip_prefix_len(t, from, b);
    lemma_boundary_in_concat(p, x, a - from);
    lemma_boundary_in_concat(p, x, b - from);
    let sa = (utf8_len(p) + utf8_len(x.take(a - from))) as int;
    let sb = (utf8_len(p) + utf8_len(x.take(b - from))) as int;
    assert(adjusted(st, shift) == sa);
    assert(c.kind !is Insert ==> adjusted(en, shift) == sb);
    assert(utf8_len(x.take(b - from)) <= utf8_len(x)) by {
        lemma_utf8_len_prefix(x, b - from);
    }
    let rest = cs.drop_first();
    let p2 = p + t.subrange(from, a) + change_text(c);
    assert(cur.take(p.len() + (a - from)) =~= p + t.subrange(from, a));
    assert(cur.skip(p.len() + (b - from)) =~= t.skip(b));
    assert(apply_change(l0, cur, c) == p2 + t.skip(b)) by {
        assert(splice(cur, sa, sb, change_text(c)) =~= p2 + t.skip(b));
        if c.kind is Insert {
            assert(sa == sb);
        }
    }
    assert(ascending_changes(t, rest, utf8_len(t.take(b)) as int)) by {
        assert forall|k: int| 0 <= k < rest.len() implies utf8_len(t.take(b)) <= (#[trigger] rest[k]).range.start by {
            assert(rest[k] == cs[k + 1]);
            assert(change_end(cs[0]) <= cs[k + 1].range.start);
        }
        assert forall|k: int| 0 <= k < rest.len() implies !((#[trigger] rest[k]).kind is Move) by {
            assert(rest[k] == cs[k + 1]);
        }
        assert forall|k: int| 0 <= k < rest.len() implies (#[trigger] rest[k]).range.start <= change_end(rest[k]) <= utf8_len(t) by {
            assert(rest[k] == cs[k + 1]);
        }
        assert forall|k: int| 0 <= k < rest.len() implies is_char_boundary(t, (#[trigger] rest[k]).range.start as int)
            && is_char_boundary(t, change_end(rest[k])) by {
            assert(rest[k] == cs[k + 1]);
        }
        assert forall|j: int, k: int| 0 <= j < k < rest.len() implies change_end(#[trigger] rest[j]) <= (#[trigger] rest[k]).range.start by {
            assert(rest[j] == cs[j + 1] && rest[k] == cs[k + 1]);
        }
    }
    crate::text::lemma_encode_concat(p + t.subrange(from, a), change_text(c));
    crate::text::lemma_encode_concat(p, t.subrange(from, a));
    lemma_changes_in_place(t, p2, b, rest);
    assert(p2 + in_place(t, rest, b) =~= p + in_place(t, cs, from));
    lemma_split_len(t, b);
    crate::text::lemma_encode_concat(p2, t.skip(b));
    lemma_utf8_len_prefix(t.take(b), a);
    assert(t.take(b).take(a) =~= t.take(a));
    if utf8_len(p) + utf8_len(t.skip(from)) + inserted_len(cs) <= isize::MAX {
        assert(utf8_len(p2) + utf8_len(t.skip(b)) + inserted_len(rest) <= isize::MAX);
        assert(change_applies(l0, cur, c));
    }
}

/// Replacements, insertions and deletions given in ascending order without
/// overlapping, by positions in the text they were made for, each land at
/// their place: applying them gives the text with each range replaced by its
/// change's text (and the text itself when there are none).
///
/// When the text and all that the changes put in fit in an `isize`, the
/// changes can be handed to `apply_changeset`.
pub proof fn lemma_ascending_changes_in_place(t: Seq<char>, cs: Seq<Change>)
    requires
        utf8_len(t) <= isize::MAX,
        ascending_changes(t, cs, 0),
    ensures
        apply_changes(utf8_len(t) as int, t, cs) == in_place(t, cs, 0),
        utf8_len(t) + inserted_len(cs) <= isize::MAX ==> changes_apply(utf8_len(t) as int, t, cs),
{
    let e = Seq::<char>::empty();
    assert(t.take(0) =~= e);
    assert(vstd::utf8::encode_utf8(e) =~= Seq::<u8>::empty());
    assert(e + t.skip(0) =~= t);
    lemma_changes_in_place(t, e, 0, cs);
    assert(e + in_place(t, cs, 0) =~= in_place(t, cs, 0));
}

/// A text has as many word starts as whitespace-separated words.
proof fn lemma_word_starts_count(s: Seq<char>)
    ensures
        word_starts(s).len() == words(s).len(),
        s.len() > 0 && !spec_is_whitespace(s.last()) ==> words(s).len() > 0,
    decreases s.len(),
{
    if s.len() > 0 {
        let t = s.drop_last();
        lemma_word_starts_count(t);
        if s.len() >= 2 {
            assert(t.last() == s[s.len() - 2]);
        }
    }
}

/// The text from the start of word `j` on holds words `j` onward.
proof fn lemma_words_from_start(s: Seq<char>, j: int)
    requires
        0 <= j < word_starts(s).len(),
    ensures
        words(s.skip(word_starts(s)[j])) == words(s).skip(j),
    decreases s.len(),
{
    let t = s.drop_last();
    let c = s.last();
    let wt = word_starts(t);
    lemma_word_starts_count(t);
    lemma_word_starts_count(s);
    lemma_word_starts_bounds(t);
    lemma_word_starts_bounds(s);
    let w = word_starts(s)[j];
    let x = s.skip(w);
    if j < wt.len() {
        assert(word_starts(s)[j] == wt[j]);
        lemma_words_from_start(t, j);
        assert(w < t.len());
        assert(x.drop_last() =~= t.skip(w));
        assert(x.last() == c);
        assert(x.len() >= 2);
        assert(x[x.len() - 2] == s[s.len() - 2]);
        if is_word_start(s, s.len() - 1) {
            assert(words(s) == words(t).push(seq![c]));
            assert(words(x) == words(t.skip(w)).push(seq![c]));
            assert(words(s).skip(j) =~= words(t).skip(j).push(seq![c]));
        } else if spec_is_whitespace(c) {
            assert(words(s).skip(j) =~= words(t).skip(j));
        } else {
            let wt2 = words(t);
            assert(wt2.skip(j).len() > 0);
            assert(words(s) == wt2.update(wt2.len() - 1, wt2.last().push(c)));
            assert(words(x) == wt2.skip(j).update(wt2.skip(j).len() - 1, wt2.skip(j).last().push(c)));
            assert(words(s).skip(j) =~= wt2.skip(j).update(wt2.skip(j).len() - 1, wt2.skip(j).last().push(c)));
        }
    } else {
        assert(word_starts(s) == wt.push(s.len() - 1));
        assert(w == s.len() - 1);
        assert(x =~= seq![c]);
        assert(words(x.drop_last()) =~= Seq::<Seq<char>>::empty()) by {
            assert(x.drop_last() =~= Seq::<char>::empty());
        }
        assert(words(x) =~= seq![seq![c]]);
        assert(words(s) == words(t).push(seq![c]));
        assert(words(s).skip(j) =~= seq![seq![c]]);
    }
}

/// The window of a word-counting policy (`Fixed(n)`, or `Adaptive` with ten
/// words) over a non-empty buffer of `k` whitespace-separated words: with
/// `m` the smaller of `n` and `k`, no word gives the buffer's end and the
/// delta alone; otherwise the window starts at the byte where word `k - m`
/// begins, the buffer from there holds exactly its last `m` words, and the
/// window is that part of the buffer joined to the delta.
pub proof fn lemma_word_window(policy: WindowPolicy, n: usize, prev: Seq<char>, delta: Seq<char>)
    requires
        policy == WindowPolicy::Fixed(n) || (policy == WindowPolicy::Adaptive && n == 10),
        prev.len() > 0,
    ensures
        ({
            let k = words(prev).len();
            let m = if n < k { n as int } else { k as int };
            &&& m == 0 ==> spec_window(policy, prev, delta) == (utf8_len(prev) as int, delta)
            &&& m > 0 ==> exists|w: int| #![trigger prev.skip(w)]
                0 <= w < prev.len() && is_word_start(prev, w)
                && spec_window(policy, prev, delta).0 == utf8_len(prev.take(w))
                && words(prev.skip(w)) == words(prev).skip(k - m)
                && spec_window(policy, prev, delta).1 == join_window(prev.skip(w), delta)
        }),
{
    lemma_word_starts_count(prev);
    lemma_word_starts_bounds(prev);
    let ws = word_starts(prev);
    let k = words(prev).len();
    let m = if n < k { n as int } else { k as int };
    if m > 0 {
        let w = ws[k - m];
        lemma_words_from_start(prev, k - m);
        assert(fixed_window_start(prev, n as nat) == Some(w));
        assert(0 <= w < prev.len() && is_word_start(prev, w));
    }
}

} // verus!
