use vstd::prelude::*;
use vstd::string::*;

verus! {

/// Whether `c` has the Unicode `White_Space` property (what `char::is_whitespace` tests).
pub open spec fn spec_is_whitespace(c: char) -> bool {
    ||| ('\u{9}' <= c && c <= '\u{d}')
    ||| c == ' '
    ||| c == '\u{85}'
    ||| c == '\u{a0}'
    ||| c == '\u{1680}'
    ||| ('\u{2000}' <= c && c <= '\u{200a}')
    ||| c == '\u{2028}'
    ||| c == '\u{2029}'
    ||| c == '\u{202f}'
    ||| c == '\u{205f}'
    ||| c == '\u{3000}'
}

pub fn is_whitespace(c: char) -> (r: bool)
    ensures
        r == spec_is_whitespace(c),
{
    ('\u{9}' <= c && c <= '\u{d}') || c == ' ' || c == '\u{85}' || c == '\u{a0}' || c == '\u{1680}'
        || ('\u{2000}' <= c && c <= '\u{200a}') || c == '\u{2028}' || c == '\u{2029}'
        || c == '\u{202f}' || c == '\u{205f}' || c == '\u{3000}'
}

pub open spec fn spec_ascii_upper(c: char) -> char {
    if 'a' <= c && c <= 'z' {
        ((c as u32) - 32) as char
    } else {
        c
    }
}

pub fn ascii_upper(c: char) -> (r: char)
    ensures
        r == spec_ascii_upper(c),
{
    if 'a' <= c && c <= 'z' {
        ((c as u8) - 32) as char
    } else {
        c
    }
}

pub fn chars_of(s: &str) -> (v: Vec<char>)
    ensures
        v@ == s@,
{
    let mut v: Vec<char> = Vec::new();
    for c in it: s.chars()
        invariant
            v@ == it.seq().take(it.index() as int),
            it.seq() == s@,
    {
        v.push(c);
    }
    v
}

} // verus!

verus! {

/// The text with leading `White_Space` removed (`str::trim_start`).
pub open spec fn trim_start(s: Seq<char>) -> Seq<char>
    decreases s.len(),
{
    if s.len() > 0 && spec_is_whitespace(s[0]) {
        trim_start(s.drop_first())
    } else {
        s
    }
}

/// The text with trailing `White_Space` removed (`str::trim_end`).
pub open spec fn trim_end(s: Seq<char>) -> Seq<char>
    decreases s.len(),
{
    if s.len() > 0 && spec_is_whitespace(s.last()) {
        trim_end(s.drop_last())
    } else {
        s
    }
}

/// `str::trim`.
pub open spec fn trim(s: Seq<char>) -> Seq<char> {
    trim_end(trim_start(s))
}

/// `trim_start` removes a prefix made of whitespace only.
pub proof fn lemma_trim_start_is_suffix(s: Seq<char>)
    ensures
        trim_start(s).len() <= s.len(),
        trim_start(s) =~= s.skip(s.len() - trim_start(s).len()),
        forall|i: int| 0 <= i < s.len() - trim_start(s).len() ==> spec_is_whitespace(#[trigger] s[i]),
        trim_start(s).len() > 0 ==> !spec_is_whitespace(trim_start(s)[0]),
    decreases s.len(),
{
    if s.len() > 0 && spec_is_whitespace(s[0]) {
        lemma_trim_start_is_suffix(s.drop_first());
        assert forall|i: int| 0 <= i < s.len() - trim_start(s).len() implies spec_is_whitespace(#[trigger] s[i]) by {
            if i > 0 {
                assert(s[i] == s.drop_first()[i - 1]);
            }
        }
    }
}

/// `trim_end` removes a suffix made of whitespace only.
pub proof fn lemma_trim_end_is_prefix(s: Seq<char>)
    ensures
        trim_end(s).len() <= s.len(),
        trim_end(s) =~= s.take(trim_end(s).len() as int),
        forall|i: int| trim_end(s).len() <= i < s.len() ==> spec_is_whitespace(#[trigger] s[i]),
        trim_end(s).len() > 0 ==> !spec_is_whitespace(trim_end(s).last()),
    decreases s.len(),
{
    if s.len() > 0 && spec_is_whitespace(s.last()) {
        lemma_trim_end_is_prefix(s.drop_last());
        assert forall|i: int| trim_end(s).len() <= i < s.len() implies spec_is_whitespace(#[trigger] s[i]) by {
            if i < s.len() - 1 {
                assert(s[i] == s.drop_last()[i]);
            }
        }
    }
}

/// Copies `v[a..b]`.
pub fn slice(v: &[char], a: usize, b: usize) -> (r: Vec<char>)
    requires
        a <= b <= v@.len(),
    ensures
        r@ == v@.subrange(a as int, b as int),
{
    let mut r: Vec<char> = Vec::new();
    let mut i = a;
    while i < b
        invariant
            a <= i <= b <= v@.len(),
            r@ == v@.subrange(a as int, i as int),
        decreases b - i,
    {
        r.push(v[i]);
        i += 1;
        proof {
            assert(r@ =~= v@.subrange(a as int, i as int));
        }
    }
    r
}

/// Appends `w` to `v`.
pub fn append(v: &mut Vec<char>, w: &[char])
    ensures
        final(v)@ == old(v)@ + w@,
{
    let mut i: usize = 0;
    while i < w.len()
        invariant
            i <= w@.len(),
            v@ == old(v)@ + w@.take(i as int),
        decreases w.len() - i,
    {
        v.push(w[i]);
        i += 1;
        proof {
            assert(v@ =~= old(v)@ + w@.take(i as int));
        }
    }
    proof {
        assert(w@.take(w@.len() as int) =~= w@);
    }
}

/// Index of the first char that is not whitespace (the length when there is none).
pub fn trim_start_index(v: &[char]) -> (r: usize)
    ensures
        r <= v@.len(),
        v@.skip(r as int) == trim_start(v@),
{
    let mut i: usize = 0;
    proof {
        assert(v@.skip(0) =~= v@);
    }
    while i < v.len() && is_whitespace(v[i])
        invariant
            i <= v@.len(),
            trim_start(v@) == trim_start(v@.skip(i as int)),
        decreases v.len() - i,
    {
        proof {
            assert(v@.skip(i as int).drop_first() =~= v@.skip(i + 1));
        }
        i += 1;
    }
    proof {
        r_skip_done(v@, i as int);
    }
    i
}

proof fn r_skip_done(s: Seq<char>, i: int)
    requires
        0 <= i <= s.len(),
        i == s.len() || !spec_is_whitespace(s[i]),
    ensures
        trim_start(s.skip(i)) == s.skip(i),
{
    if i < s.len() {
        assert(s.skip(i)[0] == s[i]);
    }
}

/// One past the last char that is not whitespace (0 when there is none).
pub fn trim_end_index(v: &[char]) -> (r: usize)
    ensures
        r <= v@.len(),
        v@.take(r as int) == trim_end(v@),
{
    let mut i: usize = v.len();
    proof {
        assert(v@.take(v@.len() as int) =~= v@);
    }
    while i > 0 && is_whitespace(v[i - 1])
        invariant
            i <= v@.len(),
            trim_end(v@) == trim_end(v@.take(i as int)),
        decreases i,
    {
        proof {
            assert(v@.take(i as int).drop_last() =~= v@.take(i - 1));
        }
        i -= 1;
    }
    proof {
        if i > 0 {
            assert(v@.take(i as int).last() == v@[i - 1]);
        }
    }
    i
}

/// `str::trim_start` on chars.
pub fn trimmed_start(v: &[char]) -> (r: Vec<char>)
    ensures
        r@ == trim_start(v@),
{
    let i = trim_start_index(v);
    slice(v, i, v.len())
}

/// `str::trim_end` on chars.
pub fn trimmed_end(v: &[char]) -> (r: Vec<char>)
    ensures
        r@ == trim_end(v@),
{
    let i = trim_end_index(v);
    slice(v, 0, i)
}

/// `str::trim` on chars.
pub fn trimmed(v: &[char]) -> (r: Vec<char>)
    ensures
        r@ == trim(v@),
{
    let a = trimmed_start(v);
    trimmed_end(&a)
}

/// Whether two char sequences are equal.
pub fn chars_eq(a: &[char], b: &[char]) -> (r: bool)
    ensures
        r == (a@ == b@),
{
    if a.len() != b.len() {
        return false;
    }
    let mut i: usize = 0;
    while i < a.len()
        invariant
            a@.len() == b@.len(),
            i <= a@.len(),
            forall|k: int| 0 <= k < i ==> a@[k] == b@[k],
        decreases a.len() - i,
    {
        if a[i] != b[i] {
            return false;
        }
        i += 1;
    }
    proof {
        assert(a@ =~= b@);
    }
    true
}

/// Whether `p` occurs in `s` at offset `at`.
pub open spec fn occurs_at(s: Seq<char>, p: Seq<char>, at: int) -> bool {
    0 <= at && at + p.len() <= s.len() && s.subrange(at, at + p.len()) == p
}

/// Whether `s` occurs at offset `at` of `v`.
pub fn matches_at(v: &[char], p: &[char], at: usize) -> (r: bool)
    ensures
        r == occurs_at(v@, p@, at as int),
{
    if at > v.len() || p.len() > v.len() - at {
        return false;
    }
    let mut i: usize = 0;
    while i < p.len()
        invariant
            at + p@.len() <= v@.len(),
            v@.len() == v.len(),
            i <= p@.len(),
            forall|k: int| 0 <= k < i ==> v@[at + k] == p@[k],
        decreases p.len() - i,
    {
        if v[at + i] != p[i] {
            proof {
                assert(v@.subrange(at as int, at + p@.len())[i as int] == v@[at + i]);
            }
            return false;
        }
        i += 1;
    }
    proof {
        assert(v@.subrange(at as int, at + p@.len()) =~= p@);
    }
    true
}

/// `str::starts_with`.
pub fn starts_with(v: &[char], p: &[char]) -> (r: bool)
    ensures
        r == occurs_at(v@, p@, 0),
{
    matches_at(v, p, 0)
}

/// Whether `p` occurs anywhere in `s` (`str::contains`).
pub open spec fn contains_seq(s: Seq<char>, p: Seq<char>) -> bool {
    exists|at: int| occurs_at(s, p, at)
}

/// `str::contains`.
pub fn contains(v: &[char], p: &[char]) -> (r: bool)
    ensures
        r == contains_seq(v@, p@),
{
    let mut at: usize = 0;
    loop
        invariant
            at <= v@.len(),
            forall|k: int| 0 <= k < at ==> !occurs_at(v@, p@, k),
        decreases v@.len() - at,
    {
        if matches_at(v, p, at) {
            return true;
        }
        if at == v.len() {
            return false;
        }
        at += 1;
    }
}

} // verus!

verus! {

/// The lowercase form of a text, as `str::to_lowercase` gives it (Unicode tables).
pub uninterp spec fn spec_lowercase(s: Seq<char>) -> Seq<char>;

/// `str::to_lowercase` (std): claims the result is the named lowercase form of the input.
#[verifier::external_body]
pub(crate) fn to_lowercase(s: &str) -> (r: String)
    ensures
        r@ == spec_lowercase(s@),
{
    s.to_lowercase()
}

/// The uppercase form of one char, as `char::to_uppercase` gives it (Unicode tables; may be several chars).
pub uninterp spec fn spec_uppercase_char(c: char) -> Seq<char>;

/// `char::to_uppercase` (std), collected: claims the result is the named uppercase form.
#[verifier::external_body]
pub(crate) fn char_to_uppercase(c: char) -> (r: String)
    ensures
        r@ == spec_uppercase_char(c),
{
    c.to_uppercase().collect()
}

/// The uppercase form of a text, as `str::to_uppercase` gives it (Unicode tables).
pub uninterp spec fn spec_uppercase(s: Seq<char>) -> Seq<char>;

/// `str::to_uppercase` (std): claims the result is the named uppercase form of the input.
#[verifier::external_body]
pub(crate) fn to_uppercase(s: &str) -> (r: String)
    ensures
        r@ == spec_uppercase(s@),
{
    s.to_uppercase()
}

/// Whether `char::is_uppercase` holds (Unicode `Uppercase` property).
pub uninterp spec fn spec_is_uppercase(c: char) -> bool;

/// `char::is_uppercase` (std): claims the result is the named property.
#[verifier::external_body]
pub(crate) fn is_uppercase(c: char) -> (r: bool)
    ensures
        r == spec_is_uppercase(c),
{
    c.is_uppercase()
}

/// Whether `char::is_lowercase` holds (Unicode `Lowercase` property).
pub uninterp spec fn spec_is_lowercase(c: char) -> bool;

/// `char::is_lowercase` (std): claims the result is the named property.
#[verifier::external_body]
pub(crate) fn is_lowercase(c: char) -> (r: bool)
    ensures
        r == spec_is_lowercase(c),
{
    c.is_lowercase()
}

/// `String::from_iter` over chars (std): claims the string holds exactly these chars.
#[verifier::external_body]
pub(crate) fn string_of(v: &[char]) -> (r: String)
    ensures
        r@ == v@,
{
    String::from_iter(v.iter())
}

} // verus!

verus! {

/// The text after its leading run of non-whitespace chars
/// (`str::trim_start_matches(|c| !c.is_whitespace())`).
pub open spec fn skip_non_ws(s: Seq<char>) -> Seq<char>
    decreases s.len(),
{
    if s.len() > 0 && !spec_is_whitespace(s[0]) {
        skip_non_ws(s.drop_first())
    } else {
        s
    }
}

/// `str::trim_start_matches(|c| !c.is_whitespace())` on chars.
pub fn skipped_non_ws(v: &[char]) -> (r: Vec<char>)
    ensures
        r@ == skip_non_ws(v@),
{
    let mut i: usize = 0;
    proof {
        assert(v@.skip(0) =~= v@);
    }
    while i < v.len() && !is_whitespace(v[i])
        invariant
            i <= v@.len(),
            skip_non_ws(v@) == skip_non_ws(v@.skip(i as int)),
        decreases v.len() - i,
    {
        proof {
            assert(v@.skip(i as int).drop_first() =~= v@.skip(i + 1));
        }
        i += 1;
    }
    proof {
        if i < v@.len() {
            assert(v@.skip(i as int)[0] == v@[i as int]);
        }
    }
    slice(v, i, v.len())
}

} // verus!

verus! {

/// The number of bytes of `c` in UTF-8.
pub open spec fn char_width(c: char) -> nat {
    if (c as u32) <= 0x7f {
        1
    } else if (c as u32) <= 0x7ff {
        2
    } else if (c as u32) <= 0xffff {
        3
    } else {
        4
    }
}

/// The number of bytes of a text in UTF-8 (what `str::len` gives).
pub open spec fn utf8_len(s: Seq<char>) -> nat {
    vstd::utf8::encode_utf8(s).len()
}

/// The encoding of a concatenation is the concatenation of the encodings.
pub proof fn lemma_encode_concat(a: Seq<char>, b: Seq<char>)
    ensures
        vstd::utf8::encode_utf8(a + b) == vstd::utf8::encode_utf8(a) + vstd::utf8::encode_utf8(b),
    decreases a.len(),
{
    if a.len() == 0 {
        assert(a + b =~= b);
        assert(vstd::utf8::encode_utf8(a) =~= Seq::<u8>::empty());
        assert(vstd::utf8::encode_utf8(a) + vstd::utf8::encode_utf8(b) =~= vstd::utf8::encode_utf8(b));
    } else {
        assert((a + b).drop_first() =~= a.drop_first() + b);
        assert((a + b)[0] == a[0]);
        lemma_encode_concat(a.drop_first(), b);
        assert(vstd::utf8::encode_utf8(a + b) =~= vstd::utf8::encode_utf8(a) + vstd::utf8::encode_utf8(b));
    }
}

/// Appending a char adds its width.
pub proof fn lemma_utf8_len_push(s: Seq<char>, c: char)
    ensures
        utf8_len(s.push(c)) == utf8_len(s) + char_width(c),
{
    lemma_encode_concat(s, seq![c]);
    assert(s.push(c) =~= s + seq![c]);
    vstd::utf8::char_is_scalar(c);
    assert(seq![c].drop_first() =~= Seq::<char>::empty());
    assert(vstd::utf8::encode_utf8(seq![c]) =~= vstd::utf8::encode_scalar(c as u32) + vstd::utf8::encode_utf8(Seq::<char>::empty()));
}

/// A prefix has no more bytes than the whole text.
pub proof fn lemma_utf8_len_prefix(s: Seq<char>, k: int)
    requires
        0 <= k <= s.len(),
    ensures
        utf8_len(s.take(k)) <= utf8_len(s),
{
    lemma_encode_concat(s.take(k), s.skip(k));
    assert(s.take(k) + s.skip(k) =~= s);
}

/// Exec form of `char_width`.
pub fn char_width_exec(c: char) -> (w: usize)
    ensures
        w == char_width(c),
{
    if (c as u32) <= 0x7f {
        1
    } else if (c as u32) <= 0x7ff {
        2
    } else if (c as u32) <= 0xffff {
        3
    } else {
        4
    }
}

/// The byte offset of char `k` of a text whose encoding fits in memory.
pub fn byte_offset(v: &[char], k: usize) -> (b: usize)
    requires
        k <= v@.len(),
        utf8_len(v@) <= usize::MAX,
    ensures
        b == utf8_len(v@.take(k as int)),
{
    let mut b: usize = 0;
    let mut i: usize = 0;
    proof {
        assert(v@.take(0) =~= Seq::<char>::empty());
        assert(vstd::utf8::encode_utf8(Seq::<char>::empty()) =~= Seq::<u8>::empty());
    }
    while i < k
        invariant
            i <= k <= v@.len(),
            utf8_len(v@) <= usize::MAX,
            b == utf8_len(v@.take(i as int)),
        decreases k - i,
    {
        proof {
            assert(v@.take(i + 1) =~= v@.take(i as int).push(v@[i as int]));
            lemma_utf8_len_push(v@.take(i as int), v@[i as int]);
            lemma_utf8_len_prefix(v@, i + 1);
        }
        b = b + char_width_exec(v[i]);
        i += 1;
    }
    b
}

/// The char index at byte offset `b`, when `b` falls on a char boundary.
pub fn char_index_at_byte(v: &[char], b: usize) -> (r: Option<usize>)
    requires
        utf8_len(v@) <= usize::MAX,
    ensures
        match r {
            Some(k) => k <= v@.len() && utf8_len(v@.take(k as int)) == b,
            None => forall|k: int| 0 <= k <= v@.len() ==> utf8_len(#[trigger] v@.take(k)) != b,
        },
{
    let mut acc: usize = 0;
    let mut i: usize = 0;
    proof {
        assert(v@.take(0) =~= Seq::<char>::empty());
        assert(vstd::utf8::encode_utf8(Seq::<char>::empty()) =~= Seq::<u8>::empty());
    }
    loop
        invariant
            i <= v@.len(),
            utf8_len(v@) <= usize::MAX,
            acc == utf8_len(v@.take(i as int)),
            acc <= b,
            forall|k: int| 0 <= k < i ==> utf8_len(#[trigger] v@.take(k)) < acc,
        decreases v@.len() - i,
    {
        if acc == b {
            return Some(i);
        }
        if i == v.len() {
            proof {
                assert(v@.take(i as int) =~= v@);
            }
            return None;
        }
        proof {
            assert(v@.take(i + 1) =~= v@.take(i as int).push(v@[i as int]));
            lemma_utf8_len_push(v@.take(i as int), v@[i as int]);
            lemma_utf8_len_prefix(v@, i + 1);
        }
        let next = acc + char_width_exec(v[i]);
        if next > b {
            proof {
                assert forall|k: int| 0 <= k <= v@.len() implies utf8_len(#[trigger] v@.take(k)) != b by {
                    if k > i {
                        lemma_utf8_len_prefix_mono(v@, i + 1, k);
                    }
                }
            }
            return None;
        }
        acc = next;
        i += 1;
    }
}

/// Longer prefixes have at least as many bytes.
pub proof fn lemma_utf8_len_prefix_mono(s: Seq<char>, a: int, b: int)
    requires
        0 <= a <= b <= s.len(),
    ensures
        utf8_len(s.take(a)) <= utf8_len(s.take(b)),
{
    lemma_utf8_len_prefix(s.take(b), a);
    assert(s.take(b).take(a) =~= s.take(a));
}

} // verus!

verus! {

/// `str::len` (std): the number of bytes of the text in UTF-8, which for a
/// text held in memory always fits in a `usize`.
#[verifier::external_body]
pub(crate) fn byte_len(s: &str) -> (r: usize)
    ensures
        r == utf8_len(s@),
{
    s.len()
}

} // verus!

verus! {

/// The whitespace-separated words of `s` (what `str::split_whitespace` gives).
pub open spec fn words(s: Seq<char>) -> Seq<Seq<char>>
    decreases s.len(),
{
    if s.len() == 0 {
        seq![]
    } else {
        let w = words(s.drop_last());
        let c = s.last();
        if spec_is_whitespace(c) {
            w
        } else if s.len() == 1 || spec_is_whitespace(s[s.len() - 2]) {
            w.push(seq![c])
        } else {
            w.update(w.len() - 1, w.last().push(c))
        }
    }
}

/// The words of `v`, as a vector of char vectors.
pub open spec fn words_view(v: Seq<Vec<char>>) -> Seq<Seq<char>> {
    v.map_values(|w: Vec<char>| w@)
}

/// Splits `v` at whitespace into its words.
pub fn split_words(v: &Vec<char>) -> (r: Vec<Vec<char>>)
    ensures
        words_view(r@) == words(v@),
{
    let mut out: Vec<Vec<char>> = Vec::new();
    let mut cur: Vec<char> = Vec::new();
    let mut in_word = false;
    let mut i: usize = 0;
    proof {
        assert(v@.take(0) =~= Seq::<char>::empty());
        assert(words_view(out@) =~= Seq::<Seq<char>>::empty());
    }
    while i < v.len()
        invariant
            i <= v@.len(),
            in_word == (i > 0 && !spec_is_whitespace(v@[i - 1])),
            in_word ==> words(v@.take(i as int)) == words_view(out@).push(cur@),
            !in_word ==> words(v@.take(i as int)) == words_view(out@),
            !in_word ==> cur@.len() == 0,
        decreases v@.len() - i,
    {
        let c = v[i];
        let ghost t = v@.take(i + 1);
        let ghost out0 = out@;
        let ghost cur0 = cur@;
        proof {
            assert(t.drop_last() =~= v@.take(i as int));
            assert(t.last() == c);
            if i > 0 {
                assert(t[t.len() - 2] == v@[i - 1]);
            }
        }
        if is_whitespace(c) {
            if in_word {
                out.push(cur);
                cur = Vec::new();
                proof {
                    assert(words_view(out@) =~= words_view(out0).push(cur0));
                }
            }
            in_word = false;
        } else {
            cur.push(c);
            proof {
                if in_word {
                    assert(words_view(out0).push(cur0).update(words_view(out0).len() as int, cur0.push(c))
                        =~= words_view(out0).push(cur@));
                } else {
                    assert(cur@ =~= seq![c]);
                }
            }
            in_word = true;
        }
        i = i + 1;
    }
    let ghost out0 = out@;
    if in_word {
        out.push(cur);
        proof {
            assert(words_view(out@) =~= words_view(out0).push(cur@));
        }
    }
    proof {
        assert(v@.take(v@.len() as int) =~= v@);
    }
    out
}

} // verus!

verus! {

/// The texts of `ws` with `sep` between each two (what `join` gives).
pub open spec fn join(ws: Seq<Seq<char>>, sep: Seq<char>) -> Seq<char>
    decreases ws.len(),
{
    if ws.len() == 0 {
        seq![]
    } else if ws.len() == 1 {
        ws[0]
    } else {
        join(ws.drop_last(), sep) + sep + ws.last()
    }
}

/// Joins the texts of `ws` with `sep` between each two.
pub fn join_with(ws: &Vec<Vec<char>>, sep: &str) -> (r: Vec<char>)
    ensures
        r@ == join(words_view(ws@), sep@),
{
    let sep_chars = chars_of(sep);
    let mut out: Vec<char> = Vec::new();
    let mut k: usize = 0;
    proof {
        assert(words_view(ws@).take(0) =~= Seq::<Seq<char>>::empty());
    }
    while k < ws.len()
        invariant
            k <= ws@.len(),
            sep_chars@ == sep@,
            out@ == join(words_view(ws@).take(k as int), sep@),
        decreases ws@.len() - k,
    {
        proof {
            let t = words_view(ws@).take(k + 1);
            assert(t.drop_last() =~= words_view(ws@).take(k as int));
            assert(t.last() == ws@[k as int]@);
            if k == 0 {
                assert(t =~= seq![ws@[0]@]);
            }
        }
        if k > 0 {
            append(&mut out, &sep_chars);
        }
        append(&mut out, &ws[k]);
        k = k + 1;
    }
    proof {
        assert(words_view(ws@).take(ws@.len() as int) =~= words_view(ws@));
    }
    out
}

/// `s` with each non-overlapping occurrence of `p`, from the left, replaced by
/// `r` (what `str::replace` gives for a non-empty `p`).
pub open spec fn replace_text(s: Seq<char>, p: Seq<char>, r: Seq<char>) -> Seq<char>
    decreases s.len(),
{
    if p.len() == 0 || s.len() == 0 {
        s
    } else if occurs_at(s, p, 0) {
        r + replace_text(s.skip(p.len() as int), p, r)
    } else {
        seq![s[0]] + replace_text(s.skip(1), p, r)
    }
}

/// Replaces each occurrence of the non-empty `p` in `v` by `r`.
pub fn replace_chars(v: &Vec<char>, p: &str, r: &str) -> (out: Vec<char>)
    requires
        p@.len() > 0,
    ensures
        out@ == replace_text(v@, p@, r@),
{
    let pc = chars_of(p);
    let rc = chars_of(r);
    let mut out: Vec<char> = Vec::new();
    let mut i: usize = 0;
    proof {
        assert(v@.skip(0) =~= v@);
    }
    while i < v.len()
        invariant
            i <= v@.len(),
            pc@ == p@,
            rc@ == r@,
            p@.len() > 0,
            out@ + replace_text(v@.skip(i as int), p@, r@) == replace_text(v@, p@, r@),
        decreases v@.len() - i,
    {
        let ghost rest = v@.skip(i as int);
        if matches_at(v, &pc, i) {
            proof {
                assert(rest.subrange(0, p@.len() as int) =~= v@.subrange(i as int, i + p@.len()));
                assert(rest.skip(p@.len() as int) =~= v@.skip(i + p@.len()));
            }
            append(&mut out, &rc);
            i = i + pc.len();
        } else {
            proof {
                if p@.len() <= rest.len() {
                    assert(rest.subrange(0, p@.len() as int) =~= v@.subrange(i as int, i + p@.len()));
                }
                assert(rest.skip(1) =~= v@.skip(i + 1));
                assert(rest[0] == v@[i as int]);
            }
            out.push(v[i]);
            proof {
                assert(out@ + replace_text(v@.skip(i + 1), p@, r@) =~= (out@.drop_last() + seq![v@[i as int]]) + replace_text(v@.skip(i + 1), p@, r@));
            }
            i = i + 1;
        }
    }
    proof {
        assert(v@.skip(i as int) =~= Seq::<char>::empty());
        assert(out@ + Seq::<char>::empty() =~= out@);
    }
    out
}

} // verus!

verus! {

/// Whether two texts hold the same chars.
pub fn same_text(a: &str, b: &str) -> (r: bool)
    ensures
        r == (a@ == b@),
{
    let x = chars_of(a);
    let y = chars_of(b);
    chars_eq(&x, &y)
}

} // verus!

