//! Dictated email addresses and web addresses ("john dot doe at gmail dot com").
use vstd::prelude::*;

use super::metadata::{builtin, builtin_metadata, regex_capabilities, streaming_regex_capabilities, RuleCategory, RuleMetadata};
use super::traits::{finish_rule_run, logs_run, FormatterRule};
use crate::clock::instant_now;
use crate::matching::{
    captures_all_in, group, group_at, group_chars, group_text_of, matches_view, pieces_view,
    regex_captures_all, splice_all, splice_matches, well_formed_matches, Groups,
};
use crate::pipeline::models::{TransformationRequest, TransformationState};
use crate::text::{
    append, chars_eq, chars_of, join, join_with, occurs_at, replace_chars, replace_text, slice, spec_lowercase,
    split_words, string_of, to_lowercase, words, words_view,
};

verus! {

/// A spoken email: the words before "at" (group 1), the domain words
/// (group 2) and the top-level domain (group 3).
pub const SPOKEN_EMAIL: &'static str = r"(?i)\b([a-z0-9\s]+)\s+at\s+([a-z0-9\s]+)\s+dot\s+(com|net|org|io|co|edu)\b";

/// A spoken web address: the words before the last "dot" (group 1), the
/// top-level domain (group 2) and an optional path after "slash" (group 3).
pub const SPOKEN_URL: &'static str = r"(?i)\b([a-z0-9\s]+)\s+dot\s+(com|net|org|io|co|edu)(?:\s+slash\s+([a-z0-9]+))?\b";

/// Words that come before a dictated address without being part of it.
pub open spec fn lead_in_words() -> Seq<Seq<char>> {
    seq![
        "go"@, "to"@, "visit"@, "is"@, "at"@, "contact"@, "email"@, "website"@, "on"@, "in"@,
        "for"@, "and"@, "the"@, "a"@, "an"@, "my"@, "your"@, "out"@,
    ]
}

/// Whether a word ends the address when scanning back from it: its lowercase
/// form is a lead-in word (and not "dot").
pub open spec fn stops_address(w: Seq<char>) -> bool {
    lead_in_words().contains(spec_lowercase(w)) && spec_lowercase(w) != "dot"@
}

/// How many words at the end of `ws` belong to the address.
pub open spec fn address_word_count(ws: Seq<Seq<char>>) -> nat
    decreases ws.len(),
{
    if ws.len() == 0 || stops_address(ws.last()) {
        0
    } else {
        address_word_count(ws.drop_last()) + 1
    }
}

/// The index of the last word that is "www" in any case.
pub open spec fn last_www(ws: Seq<Seq<char>>) -> Option<int>
    decreases ws.len(),
{
    if ws.len() == 0 {
        None
    } else if spec_lowercase(ws.last()) == "www"@ {
        Some(ws.len() - 1)
    } else {
        last_www(ws.drop_last())
    }
}

/// The words kept before an address, joined, with a space after them.
pub open spec fn kept_prefix(kept: Seq<Seq<char>>) -> Seq<char> {
    if kept.len() == 0 {
        seq![]
    } else {
        join(kept, " "@) + " "@
    }
}

/// Spoken " dot " made a period, then the spaces removed.
pub open spec fn squeeze(s: Seq<char>) -> Seq<char> {
    replace_text(replace_text(s, " dot "@, "."@), " "@, ""@)
}

/// What a spoken email becomes.
pub open spec fn email_piece(text: Seq<char>, g: Groups) -> Seq<char> {
    let ws = words(group_text_of(text, g, 1));
    let cut = ws.len() - address_word_count(ws);
    kept_prefix(ws.take(cut)) + squeeze(join(ws.skip(cut), " "@)) + "@"@ + squeeze(group_text_of(text, g, 2))
        + "."@ + group_text_of(text, g, 3)
}

/// What a spoken web address becomes.
pub open spec fn url_piece(text: Seq<char>, g: Groups) -> Seq<char> {
    let ws = words(group_text_of(text, g, 1));
    let cut = match last_www(ws) {
        Some(i) => i,
        None => ws.len() - address_word_count(ws),
    };
    let path = if group(g, 3) is Some {
        "/"@ + replace_text(group_text_of(text, g, 3), " "@, ""@)
    } else {
        seq![]
    };
    kept_prefix(ws.take(cut)) + squeeze(join(ws.skip(cut), " "@)) + "."@ + group_text_of(text, g, 2) + path
}

/// `text` with each spoken email written as an address.
pub open spec fn emails_written(text: Seq<char>) -> Seq<char> {
    let ms = regex_captures_all(SPOKEN_EMAIL@, text);
    splice_matches(text, ms, ms.map_values(|g: Groups| email_piece(text, g)))
}

/// `text` with each spoken web address written out.
pub open spec fn urls_written(text: Seq<char>) -> Seq<char> {
    let ms = regex_captures_all(SPOKEN_URL@, text);
    splice_matches(text, ms, ms.map_values(|g: Groups| url_piece(text, g)))
}

/// What `format` gives: emails first, then web addresses.
pub open spec fn spec_format_addresses(text: Seq<char>) -> Seq<char> {
    urls_written(emails_written(text))
}

fn lowercase_is(w: &Vec<char>, lit: &str) -> (r: bool)
    ensures
        r == (spec_lowercase(w@) == lit@),
{
    let lower = to_lowercase(string_of(w).as_str());
    let a = chars_of(lower.as_str());
    let b = chars_of(lit);
    chars_eq(&a, &b)
}

fn stops_address_exec(w: &Vec<char>) -> (r: bool)
    ensures
        r == stops_address(w@),
{
    let lead_ins = vec![
        "go", "to", "visit", "is", "at", "contact", "email", "website", "on", "in", "for", "and",
        "the", "a", "an", "my", "your", "out",
    ];
    let lower = to_lowercase(string_of(w).as_str());
    let lc = chars_of(lower.as_str());
    let mut found = false;
    let mut k: usize = 0;
    while k < lead_ins.len()
        invariant
            k <= lead_ins@.len(),
            lc@ == spec_lowercase(w@),
            lead_ins@.map_values(|s: &str| s@) == lead_in_words(),
            found == (exists|j: int| 0 <= j < k && lead_in_words()[j] == lc@),
        decreases lead_ins@.len() - k,
    {
        let item = chars_of(lead_ins[k]);
        proof {
            assert(lead_in_words()[k as int] == lead_ins@[k as int]@);
        }
        if chars_eq(&lc, &item) {
            found = true;
        }
        k = k + 1;
    }
    proof {
        if found {
            let j = choose|j: int| 0 <= j < k && lead_in_words()[j] == lc@;
            assert(lead_in_words().contains(lc@));
        }
        if lead_in_words().contains(lc@) {
            let j = choose|j: int| 0 <= j < lead_in_words().len() && lead_in_words()[j] == lc@;
            assert(0 <= j < k);
        }
    }
    found && !lowercase_is(w, "dot")
}

/// The number of address words at the end of `ws`.
fn address_word_count_exec(ws: &Vec<Vec<char>>) -> (n: usize)
    ensures
        n == address_word_count(words_view(ws@)),
        n <= ws@.len(),
{
    let ghost wv = words_view(ws@);
    let mut n: usize = 0;
    proof {
        assert(wv.take(wv.len() as int) =~= wv);
    }
    while n < ws.len()
        invariant
            wv == words_view(ws@),
            n <= ws@.len(),
            address_word_count(wv) == address_word_count(wv.take(ws@.len() - n)) + n,
        decreases ws@.len() - n,
    {
        let i = ws.len() - 1 - n;
        let t = Ghost(wv.take(i + 1));
        proof {
            assert(t@.last() == ws@[i as int]@);
            assert(t@.drop_last() =~= wv.take(i as int));
        }
        if stops_address_exec(&ws[i]) {
            return n;
        }
        n = n + 1;
    }
    proof {
        assert(wv.take(0) =~= Seq::<Seq<char>>::empty());
    }
    n
}

fn last_www_exec(ws: &Vec<Vec<char>>) -> (r: Option<usize>)
    ensures
        match last_www(words_view(ws@)) {
            Some(i) => r == Some(i as usize) && 0 <= i < ws@.len(),
            None => r is None,
        },
{
    let ghost wv = words_view(ws@);
    let mut i: usize = ws.len();
    proof {
        assert(wv.take(wv.len() as int) =~= wv);
    }
    while i > 0
        invariant
            wv == words_view(ws@),
            i <= ws@.len(),
            last_www(wv) == last_www(wv.take(i as int)),
        decreases i,
    {
        let t = Ghost(wv.take(i as int));
        proof {
            assert(t@.last() == ws@[i - 1]@);
            assert(t@.drop_last() =~= wv.take(i - 1));
        }
        if lowercase_is(&ws[i - 1], "www") {
            return Some(i - 1);
        }
        i = i - 1;
    }
    proof {
        assert(wv.take(0) =~= Seq::<Seq<char>>::empty());
    }
    None
}

fn kept_prefix_exec(ws: &Vec<Vec<char>>, cut: usize) -> (r: Vec<char>)
    requires
        cut <= ws@.len(),
    ensures
        r@ == kept_prefix(words_view(ws@).take(cut as int)),
{
    let mut kept: Vec<Vec<char>> = Vec::new();
    let mut k: usize = 0;
    while k < cut
        invariant
            k <= cut <= ws@.len(),
            words_view(kept@) == words_view(ws@).take(k as int),
        decreases cut - k,
    {
        kept_push(&mut kept, &ws[k]);
        proof {
            assert(words_view(kept@) =~= words_view(ws@).take(k + 1));
        }
        k = k + 1;
    }
    if cut == 0 {
        return Vec::new();
    }
    let mut out = join_with(&kept, " ");
    out.push(' ');
    proof {
        reveal_strlit(" ");
        assert(out@ =~= join(words_view(ws@).take(cut as int), " "@) + " "@);
    }
    out
}

fn address_words_exec(ws: &Vec<Vec<char>>, cut: usize) -> (r: Vec<char>)
    requires
        cut <= ws@.len(),
    ensures
        r@ == squeeze(join(words_view(ws@).skip(cut as int), " "@)),
{
    let mut rest: Vec<Vec<char>> = Vec::new();
    let mut k: usize = cut;
    proof {
        assert(words_view(rest@) =~= words_view(ws@).subrange(cut as int, cut as int));
    }
    while k < ws.len()
        invariant
            cut <= k <= ws@.len(),
            words_view(rest@) == words_view(ws@).subrange(cut as int, k as int),
        decreases ws@.len() - k,
    {
        kept_push(&mut rest, &ws[k]);
        proof {
            assert(words_view(rest@) =~= words_view(ws@).subrange(cut as int, k + 1));
        }
        k = k + 1;
    }
    proof {
        assert(words_view(ws@).subrange(cut as int, ws@.len() as int) =~= words_view(ws@).skip(cut as int));
    }
    let joined = join_with(&rest, " ");
    squeeze_exec(&joined)
}

fn kept_push(v: &mut Vec<Vec<char>>, w: &Vec<char>)
    ensures
        words_view(final(v)@) == words_view(old(v)@).push(w@),
{
    let copy = slice(w, 0, w.len());
    proof {
        assert(w@.subrange(0, w@.len() as int) =~= w@);
    }
    v.push(copy);
    proof {
        assert(words_view(v@) =~= words_view(old(v)@).push(w@));
    }
}

fn squeeze_exec(s: &Vec<char>) -> (r: Vec<char>)
    ensures
        r@ == squeeze(s@),
{
    proof {
        reveal_strlit(" dot ");
        reveal_strlit(" ");
        reveal_strlit("");
    }
    let dotted = replace_chars(s, " dot ", ".");
    replace_chars(&dotted, " ", "")
}

fn email_piece_exec(text: &Vec<char>, g: &Vec<Option<(usize, usize)>>) -> (r: Vec<char>)
    requires
        well_formed_groups_of(g@, text@),
    ensures
        r@ == email_piece(text@, g@),
{
    let left = group_chars(text, g, 1);
    let ws = split_words(&left);
    let cut = ws.len() - address_word_count_exec(&ws);
    let mut out = kept_prefix_exec(&ws, cut);
    let addr = address_words_exec(&ws, cut);
    append(&mut out, &addr);
    out.push('@');
    let domain = group_chars(text, g, 2);
    let squeezed = squeeze_exec(&domain);
    append(&mut out, &squeezed);
    out.push('.');
    let tld = group_chars(text, g, 3);
    append(&mut out, &tld);
    proof {
        reveal_strlit("@");
        reveal_strlit(".");
        assert(out@ =~= email_piece(text@, g@));
    }
    out
}

fn url_piece_exec(text: &Vec<char>, g: &Vec<Option<(usize, usize)>>) -> (r: Vec<char>)
    requires
        well_formed_groups_of(g@, text@),
    ensures
        r@ == url_piece(text@, g@),
{
    let left = group_chars(text, g, 1);
    let ws = split_words(&left);
    let cut = match last_www_exec(&ws) {
        Some(i) => i,
        None => ws.len() - address_word_count_exec(&ws),
    };
    let mut out = kept_prefix_exec(&ws, cut);
    let addr = address_words_exec(&ws, cut);
    append(&mut out, &addr);
    out.push('.');
    let tld = group_chars(text, g, 2);
    append(&mut out, &tld);
    if group_at(g, 3).is_some() {
        proof {
            reveal_strlit(" ");
            reveal_strlit("");
        }
        out.push('/');
        let path = group_chars(text, g, 3);
        let squeezed = replace_chars(&path, " ", "");
        append(&mut out, &squeezed);
    }
    proof {
        reveal_strlit(".");
        reveal_strlit("/");
        assert(out@ =~= url_piece(text@, g@));
    }
    out
}

/// A match shaped like every regex match over `text`.
pub open spec fn well_formed_groups_of(g: Groups, text: Seq<char>) -> bool {
    crate::matching::well_formed_groups(g, text.len())
}

fn emails_in(text: &Vec<char>) -> (r: Vec<char>)
    ensures
        r@ == emails_written(text@),
{
    let ms = captures_all_in(SPOKEN_EMAIL, text);
    let ghost mv = matches_view(ms);
    let mut pieces: Vec<Vec<char>> = Vec::new();
    let mut k: usize = 0;
    while k < ms.len()
        invariant
            mv == matches_view(ms),
            mv == regex_captures_all(SPOKEN_EMAIL@, text@),
            well_formed_matches(mv, text@.len()),
            k <= ms@.len(),
            pieces@.len() == k,
            pieces_view(pieces@) == mv.map_values(|g: Groups| email_piece(text@, g)).take(k as int),
        decreases ms@.len() - k,
    {
        proof {
            assert(mv[k as int] == ms@[k as int]@);
        }
        let piece = email_piece_exec(text, &ms[k]);
        let ghost before = pieces@;
        pieces.push(piece);
        proof {
            assert(pieces_view(pieces@) =~= pieces_view(before).push(pieces@[k as int]@));
            assert(mv.map_values(|g: Groups| email_piece(text@, g)).take(k + 1)
                =~= mv.map_values(|g: Groups| email_piece(text@, g)).take(k as int).push(email_piece(text@, mv[k as int])));
        }
        k = k + 1;
    }
    proof {
        assert(mv.map_values(|g: Groups| email_piece(text@, g)).take(ms@.len() as int)
            =~= mv.map_values(|g: Groups| email_piece(text@, g)));
    }
    splice_all(text, &ms, &pieces)
}

fn urls_in(text: &Vec<char>) -> (r: Vec<char>)
    ensures
        r@ == urls_written(text@),
{
    let ms = captures_all_in(SPOKEN_URL, text);
    let ghost mv = matches_view(ms);
    let mut pieces: Vec<Vec<char>> = Vec::new();
    let mut k: usize = 0;
    while k < ms.len()
        invariant
            mv == matches_view(ms),
            mv == regex_captures_all(SPOKEN_URL@, text@),
            well_formed_matches(mv, text@.len()),
            k <= ms@.len(),
            pieces@.len() == k,
            pieces_view(pieces@) == mv.map_values(|g: Groups| url_piece(text@, g)).take(k as int),
        decreases ms@.len() - k,
    {
        proof {
            assert(mv[k as int] == ms@[k as int]@);
        }
        let piece = url_piece_exec(text, &ms[k]);
        let ghost before = pieces@;
        pieces.push(piece);
        proof {
            assert(pieces_view(pieces@) =~= pieces_view(before).push(pieces@[k as int]@));
            assert(mv.map_values(|g: Groups| url_piece(text@, g)).take(k + 1)
                =~= mv.map_values(|g: Groups| url_piece(text@, g)).take(k as int).push(url_piece(text@, mv[k as int])));
        }
        k = k + 1;
    }
    proof {
        assert(mv.map_values(|g: Groups| url_piece(text@, g)).take(ms@.len() as int)
            =~= mv.map_values(|g: Groups| url_piece(text@, g)));
    }
    splice_all(text, &ms, &pieces)
}

/// Writes dictated emails and web addresses as addresses.
pub fn format(text: &str) -> (r: String)
    ensures
        r@ == spec_format_addresses(text@),
{
    let chars = chars_of(text);
    let emails = emails_in(&chars);
    let urls = urls_in(&emails);
    string_of(&urls)
}

/// The formatting-pass rule for addresses, run on every request.
pub struct EmailUrlRule;

impl FormatterRule for EmailUrlRule {
    open spec fn obeys_rule_spec(&self) -> bool {
        true
    }

    open spec fn spec_metadata(&self) -> RuleMetadata {
        builtin_metadata("EmailUrlRule", RuleCategory::Formatting, 700, regex_capabilities(false, false, false))
    }

    open spec fn spec_applies(&self, request: TransformationRequest) -> bool {
        true
    }

    open spec fn rewrite(&self, text: Seq<char>, request: TransformationRequest) -> Seq<char> {
        spec_format_addresses(text)
    }

    fn metadata(&self) -> (m: RuleMetadata) {
        builtin("EmailUrlRule", RuleCategory::Formatting, 700, streaming_regex_capabilities(false, false, false))
    }

    fn applies(&self, _request: &TransformationRequest) -> (r: bool) {
        true
    }

    fn apply(&self, state: &mut TransformationState, _request: &TransformationRequest)
        ensures
            logs_run(old(state).diagnostics@, final(state).diagnostics@, "EmailUrlRule", old(state).current_text@, final(state).current_text@),
    {
        let started = instant_now();
        let before = state.current_text.clone();
        state.current_text = format(state.current_text.as_str());
        finish_rule_run(state, "EmailUrlRule", before, &started);
    }
}


/// Whether no text of `ws` holds a space.
pub open spec fn spaceless_words(ws: Seq<Seq<char>>) -> bool {
    forall|i: int, j: int| 0 <= i < ws.len() && 0 <= j < ws[i].len() ==> #[trigger] ws[i][j] != ' '
}

/// Replacing a pattern that starts with a space leaves a text without spaces as it is.
proof fn lemma_replace_spaceless(a: Seq<char>, p: Seq<char>, r: Seq<char>)
    requires
        p.len() > 0,
        p[0] == ' ',
        forall|j: int| 0 <= j < a.len() ==> #[trigger] a[j] != ' ',
    ensures
        replace_text(a, p, r) == a,
    decreases a.len(),
{
    if a.len() > 0 {
        assert(!occurs_at(a, p, 0)) by {
            if p.len() <= a.len() {
                assert(a.subrange(0, p.len() as int)[0] == a[0]);
            }
        }
        lemma_replace_spaceless(a.skip(1), p, r);
        assert(seq![a[0]] + a.skip(1) =~= a);
    }
}

/// A pattern that starts with a space, right after a word without spaces, is
/// the first place the word and what follows are replaced.
proof fn lemma_replace_after_word(a: Seq<char>, rest: Seq<char>, p: Seq<char>, r: Seq<char>)
    requires
        p.len() > 0,
        p[0] == ' ',
        forall|j: int| 0 <= j < a.len() ==> #[trigger] a[j] != ' ',
    ensures
        replace_text(a + p + rest, p, r) == a + r + replace_text(rest, p, r),
    decreases a.len(),
{
    let s = a + p + rest;
    if a.len() == 0 {
        assert(s =~= p + rest);
        assert(s.subrange(0, p.len() as int) =~= p);
        assert(s.skip(p.len() as int) =~= rest);
        assert(a + r + replace_text(rest, p, r) =~= r + replace_text(rest, p, r));
    } else {
        assert(s[0] == a[0]);
        assert(!occurs_at(s, p, 0)) by {
            assert(s.subrange(0, p.len() as int)[0] == a[0]);
        }
        assert(s.skip(1) =~= a.skip(1) + p + rest);
        lemma_replace_after_word(a.skip(1), rest, p, r);
        assert(seq![a[0]] + (a.skip(1) + r + replace_text(rest, p, r)) =~= a + r + replace_text(rest, p, r));
    }
}

/// A join of two or more texts is the first, the separator, then the join of the rest.
proof fn lemma_join_front(ws: Seq<Seq<char>>, sep: Seq<char>)
    requires
        ws.len() >= 2,
    ensures
        join(ws, sep) == ws[0] + sep + join(ws.drop_first(), sep),
    decreases ws.len(),
{
    if ws.len() > 2 {
        lemma_join_front(ws.drop_last(), sep);
        assert(ws.drop_last().drop_first() =~= ws.drop_first().drop_last());
        assert(ws.drop_first().last() == ws.last());
        assert(ws.drop_last()[0] == ws[0]);
        let mid = join(ws.drop_first().drop_last(), sep);
        assert(join(ws.drop_first(), sep) == mid + sep + ws.last());
        assert(join(ws, sep) == (ws[0] + sep + mid) + sep + ws.last());
        assert((ws[0] + sep + mid) + sep + ws.last() =~= ws[0] + sep + (mid + sep + ws.last()));
        assert(join(ws, sep) == join(ws.drop_last(), sep) + sep + ws.last());
    } else {
        assert(ws.drop_last() =~= seq![ws[0]]);
        assert(ws.drop_first() =~= seq![ws[1]]);
        assert(join(ws.drop_last(), sep) == ws[0]);
        assert(join(ws.drop_first(), sep) == ws[1]);
        assert(ws.last() == ws[1]);
    }
}

/// Joining texts without spaces by a separator without spaces gives a text without spaces.
proof fn lemma_join_spaceless(ws: Seq<Seq<char>>, sep: Seq<char>)
    requires
        spaceless_words(ws),
        forall|j: int| 0 <= j < sep.len() ==> #[trigger] sep[j] != ' ',
    ensures
        forall|j: int| 0 <= j < join(ws, sep).len() ==> #[trigger] join(ws, sep)[j] != ' ',
    decreases ws.len(),
{
    if ws.len() >= 2 {
        assert(spaceless_words(ws.drop_last())) by {
            assert forall|i: int, j: int| 0 <= i < ws.drop_last().len() && 0 <= j < ws.drop_last()[i].len() implies #[trigger] ws.drop_last()[i][j] != ' ' by {
                assert(ws.drop_last()[i] == ws[i]);
                assert(ws[i][j] != ' ');
            }
        }
        lemma_join_spaceless(ws.drop_last(), sep);
        let x = join(ws.drop_last(), sep);
        let last = ws.last();
        assert forall|j: int| 0 <= j < join(ws, sep).len() implies #[trigger] join(ws, sep)[j] != ' ' by {
            if j < x.len() {
                assert(join(ws, sep)[j] == x[j]);
            } else if j < x.len() + sep.len() {
                assert(join(ws, sep)[j] == sep[j - x.len()]);
            } else {
                assert(join(ws, sep)[j] == last[j - x.len() - sep.len()]);
                assert(ws[ws.len() - 1][j - x.len() - sep.len()] != ' ');
            }
        }
    } else if ws.len() == 1 {
        assert forall|j: int| 0 <= j < join(ws, sep).len() implies #[trigger] join(ws, sep)[j] != ' ' by {
            assert(ws[0][j] != ' ');
        }
    }
}

/// Words without spaces spoken with " dot " between them are written with
/// '.' between them.
proof fn lemma_spoken_dots(ws: Seq<Seq<char>>)
    requires
        spaceless_words(ws),
    ensures
        replace_text(join(ws, " dot "@), " dot "@, "."@) == join(ws, "."@),
    decreases ws.len(),
{
    reveal_strlit(" dot ");
    reveal_strlit(".");
    if ws.len() == 1 {
        assert forall|j: int| 0 <= j < ws[0].len() implies #[trigger] ws[0][j] != ' ' by {
            assert(ws[0][j] != ' ');
        }
        lemma_replace_spaceless(ws[0], " dot "@, "."@);
    } else if ws.len() >= 2 {
        lemma_join_front(ws, " dot "@);
        lemma_join_front(ws, "."@);
        assert forall|j: int| 0 <= j < ws[0].len() implies #[trigger] ws[0][j] != ' ' by {
            assert(ws[0][j] != ' ');
        }
        lemma_replace_after_word(ws[0], join(ws.drop_first(), " dot "@), " dot "@, "."@);
        assert(spaceless_words(ws.drop_first())) by {
            assert forall|i: int, j: int| 0 <= i < ws.drop_first().len() && 0 <= j < ws.drop_first()[i].len() implies #[trigger] ws.drop_first()[i][j] != ' ' by {
                assert(ws.drop_first()[i] == ws[i + 1]);
                assert(ws[i + 1][j] != ' ');
            }
        }
        lemma_spoken_dots(ws.drop_first());
    }
}

/// A spoken domain of words without spaces separated by " dot " (as in "cs
/// dot stanford") is written with '.' between its words ("cs.stanford"):
/// the written email ends with '@', those words joined by '.', then '.' and
/// the top-level domain.
pub proof fn lemma_email_domain(text: Seq<char>, g: Groups, ws: Seq<Seq<char>>)
    requires
        spaceless_words(ws),
        group_text_of(text, g, 2) == join(ws, " dot "@),
    ensures
        ({
            let e = email_piece(text, g);
            let tail = "@"@ + join(ws, "."@) + "."@ + group_text_of(text, g, 3);
            e.len() >= tail.len() && e.skip(e.len() - tail.len()) == tail
        }),
{
    reveal_strlit(".");
    reveal_strlit(" ");
    lemma_spoken_dots(ws);
    lemma_join_spaceless(ws, "."@);
    lemma_replace_spaceless(join(ws, "."@), " "@, ""@);
    let ews = words(group_text_of(text, g, 1));
    let cut = ews.len() - address_word_count(ews);
    let head = kept_prefix(ews.take(cut)) + squeeze(join(ews.skip(cut), " "@));
    let e = email_piece(text, g);
    let tail = "@"@ + join(ws, "."@) + "."@ + group_text_of(text, g, 3);
    assert(squeeze(group_text_of(text, g, 2)) == join(ws, "."@));
    assert(e =~= head + tail);
    assert(e.skip(e.len() - tail.len()) =~= tail);
}


/// Removing the spaces of a text leaves none.
proof fn lemma_spaces_removed(x: Seq<char>)
    ensures
        forall|j: int| 0 <= j < replace_text(x, " "@, ""@).len() ==> #[trigger] replace_text(x, " "@, ""@)[j] != ' ',
    decreases x.len(),
{
    reveal_strlit(" ");
    reveal_strlit("");
    if x.len() > 0 {
        lemma_spaces_removed(x.skip(1));
        let rest = replace_text(x.skip(1), " "@, ""@);
        if occurs_at(x, " "@, 0) {
            assert(replace_text(x, " "@, ""@) =~= rest);
        } else {
            assert(x.subrange(0, 1) =~= seq![x[0]]);
            assert(" "@ =~= seq![' ']);
            assert(x[0] != ' ');
            assert forall|j: int| 0 <= j < replace_text(x, " "@, ""@).len() implies #[trigger] replace_text(x, " "@, ""@)[j] != ' ' by {
                if j > 0 {
                    assert(replace_text(x, " "@, ""@)[j] == rest[j - 1]);
                }
            }
        }
    }
}

/// What a spoken address part becomes: never a space, and words without
/// spaces spoken with " dot " between them come out with '.' between them
/// ("cs dot stanford" is "cs.stanford").
pub proof fn lemma_squeeze(s: Seq<char>, ws: Seq<Seq<char>>)
    ensures
        forall|j: int| 0 <= j < squeeze(s).len() ==> #[trigger] squeeze(s)[j] != ' ',
        spaceless_words(ws) ==> squeeze(join(ws, " dot "@)) == join(ws, "."@),
{
    lemma_spaces_removed(replace_text(s, " dot "@, "."@));
    if spaceless_words(ws) {
        reveal_strlit(".");
        reveal_strlit(" ");
        lemma_spoken_dots(ws);
        lemma_join_spaceless(ws, "."@);
        lemma_replace_spaceless(join(ws, "."@), " "@, ""@);
    }
}

} // verus!
