//! User vocabulary: spoken phrases and what to write for them.
use vstd::prelude::*;

use super::metadata::{builtin, builtin_metadata, regex_capabilities, streaming_regex_capabilities, RuleCategory, RuleMetadata};
use super::traits::{finish_rule_run, logs_run, FormatterRule};
use crate::clock::instant_now;
use crate::matching::{escape, replace_or_keep, replaced, spec_escape};
use crate::pipeline::models::{TransformationRequest, TransformationState};
use crate::text::{
    append, chars_of, replace_chars, replace_text, spec_lowercase, split_words, string_of, to_lowercase,
    trim, trimmed, words,
};

verus! {

/// One vocabulary entry: when `spoken` is heard, `output` is written.
#[derive(Debug)]
pub struct VocabularyEntry {
    pub spoken: String,
    pub output: String,
    pub language: String,
    pub enabled: bool,
    pub case_sensitive: bool,
}

impl Clone for VocabularyEntry {
    fn clone(&self) -> (r: Self)
        ensures
            r == *self,
    {
        VocabularyEntry {
            spoken: self.spoken.clone(),
            output: self.output.clone(),
            language: self.language.clone(),
            enabled: self.enabled,
            case_sensitive: self.case_sensitive,
        }
    }
}

/// A user's vocabulary.
#[derive(Debug)]
pub struct UserVocabulary {
    pub entries: Vec<VocabularyEntry>,
}

impl Clone for UserVocabulary {
    fn clone(&self) -> (r: Self)
        ensures
            r.entries@ == self.entries@,
    {
        let entries = self.entries.clone();
        proof {
            assert(entries@ =~= self.entries@);
        }
        UserVocabulary { entries }
    }
}

} // verus!

verus! {

/// A vocabulary entry ready to apply: its spoken phrase normalized, its
/// output, whether it matches case, and how many words the phrase has.
pub struct PreparedEntry {
    pub spoken: Vec<char>,
    pub output: String,
    pub case_sensitive: bool,
    pub word_count: usize,
}

/// The view of a prepared entry.
pub type Prepared = (Seq<char>, Seq<char>, bool, nat);

pub open spec fn prepared_view(v: Seq<PreparedEntry>) -> Seq<Prepared> {
    v.map_values(|p: PreparedEntry| (p.spoken@, p.output@, p.case_sensitive, p.word_count as nat))
}

/// A run of whitespace.
pub const WHITESPACE_RUN: &'static str = r"\s+";

/// A spoken phrase trimmed, lowercased, with each whitespace run made one space.
pub open spec fn normalize_spoken(s: Seq<char>) -> Seq<char> {
    replaced(WHITESPACE_RUN@, spec_lowercase(trim(s)), " "@)
}

/// An entry as it is applied.
pub open spec fn prepare(spoken: Seq<char>, output: Seq<char>, case_sensitive: bool) -> Prepared {
    let n = normalize_spoken(spoken);
    (n, output, case_sensitive, words(n).len())
}

/// The entries used when the user has none enabled.
pub open spec fn default_entries() -> Seq<Prepared> {
    seq![
        prepare("cmg"@, "CMG"@, false),
        prepare("petro signs"@, "PetroSigns"@, false),
        prepare("qwen"@, "Qwen3"@, false),
    ]
}

/// The enabled entries of a vocabulary, prepared, in order.
pub open spec fn enabled_entries(entries: Seq<VocabularyEntry>) -> Seq<Prepared>
    decreases entries.len(),
{
    if entries.len() == 0 {
        seq![]
    } else {
        let rest = enabled_entries(entries.drop_last());
        let e = entries.last();
        if e.enabled {
            rest.push(prepare(e.spoken@, e.output@, e.case_sensitive))
        } else {
            rest
        }
    }
}

/// The entries a request uses: its user's enabled entries, or the defaults when there are none.
pub open spec fn request_entries(request: TransformationRequest) -> Seq<Prepared> {
    vocabulary_entries(request.user_context.vocabulary)
}

/// The entries a vocabulary gives: its enabled entries, or the defaults when there are none.
pub open spec fn vocabulary_entries(vocabulary: Option<UserVocabulary>) -> Seq<Prepared> {
    let user = match vocabulary {
        Some(v) => enabled_entries(v.entries@),
        None => seq![],
    };
    if user.len() == 0 {
        default_entries()
    } else {
        user
    }
}

/// The index at which an entry of `count` words goes in a list sorted by
/// descending word count, after every entry with at least as many words.
pub open spec fn insert_position(sorted: Seq<Prepared>, count: nat) -> int
    decreases sorted.len(),
{
    if sorted.len() == 0 {
        0
    } else if sorted.last().3 >= count {
        sorted.len() as int
    } else {
        insert_position(sorted.drop_last(), count)
    }
}

/// The entries sorted by descending word count, entries with equal counts
/// keeping their order (a stable sort).
pub open spec fn sort_by_word_count(s: Seq<Prepared>) -> Seq<Prepared>
    decreases s.len(),
{
    if s.len() == 0 {
        s
    } else {
        let sorted = sort_by_word_count(s.drop_last());
        sorted.insert(insert_position(sorted, s.last().3), s.last())
    }
}

/// The pattern that finds a phrase: whole words, any whitespace between
/// them, ignoring case unless the entry matches case.
pub open spec fn phrase_pattern(spoken: Seq<char>, case_sensitive: bool) -> Seq<char> {
    (if case_sensitive { r"\b"@ } else { r"(?i)\b"@ }) + replace_text(spec_escape(spoken), " "@, r"\s+"@)
        + r"\b"@
}

/// `text` after replacing the phrase of each entry, in order.
pub open spec fn apply_entries(text: Seq<char>, entries: Seq<Prepared>) -> Seq<char>
    decreases entries.len(),
{
    if entries.len() == 0 {
        text
    } else {
        let e = entries.last();
        replaced(phrase_pattern(e.0, e.2), apply_entries(text, entries.drop_last()), e.1)
    }
}

/// What `expand_vocabulary` gives: the request's entries applied longest phrase first.
pub open spec fn spec_expand_vocabulary(text: Seq<char>, request: TransformationRequest) -> Seq<char> {
    apply_entries(text, sort_by_word_count(request_entries(request)))
}

fn prepare_exec(spoken: &str, output: &str, case_sensitive: bool) -> (p: PreparedEntry)
    ensures
        (p.spoken@, p.output@, p.case_sensitive, p.word_count as nat) == prepare(spoken@, output@, case_sensitive),
{
    let chars = chars_of(spoken);
    let t = trimmed(&chars);
    let lower = to_lowercase(string_of(&t).as_str());
    let normalized = replace_or_keep(WHITESPACE_RUN, lower.as_str(), " ");
    let n = chars_of(normalized.as_str());
    let ws = split_words(&n);
    PreparedEntry { spoken: n, output: output.to_owned(), case_sensitive, word_count: ws.len() }
}

fn push_prepared(v: &mut Vec<PreparedEntry>, p: PreparedEntry)
    ensures
        prepared_view(final(v)@) == prepared_view(old(v)@).push(
            (p.spoken@, p.output@, p.case_sensitive, p.word_count as nat),
        ),
{
    v.push(p);
    proof {
        assert(prepared_view(v@) =~= prepared_view(old(v)@).push((p.spoken@, p.output@, p.case_sensitive, p.word_count as nat)));
    }
}

fn entries_for(request: &TransformationRequest) -> (r: Vec<PreparedEntry>)
    ensures
        prepared_view(r@) == request_entries(*request),
{
    let mut out: Vec<PreparedEntry> = Vec::new();
    match &request.user_context.vocabulary {
        Some(vocab) => {
            let mut k: usize = 0;
            proof {
                assert(vocab.entries@.take(0) =~= Seq::<VocabularyEntry>::empty());
                assert(prepared_view(out@) =~= Seq::<Prepared>::empty());
            }
            while k < vocab.entries.len()
                invariant
                    k <= vocab.entries@.len(),
                    prepared_view(out@) == enabled_entries(vocab.entries@.take(k as int)),
                decreases vocab.entries@.len() - k,
            {
                let e = &vocab.entries[k];
                proof {
                    assert(vocab.entries@.take(k + 1).drop_last() =~= vocab.entries@.take(k as int));
                    assert(vocab.entries@.take(k + 1).last() == *e);
                }
                if e.enabled {
                    let p = prepare_exec(e.spoken.as_str(), e.output.as_str(), e.case_sensitive);
                    push_prepared(&mut out, p);
                }
                k = k + 1;
            }
            proof {
                assert(vocab.entries@.take(vocab.entries@.len() as int) =~= vocab.entries@);
            }
        },
        None => {
            proof {
                assert(prepared_view(out@) =~= Seq::<Prepared>::empty());
            }
        },
    }
    if out.len() == 0 {
        let mut defaults: Vec<PreparedEntry> = Vec::new();
        push_prepared(&mut defaults, prepare_exec("cmg", "CMG", false));
        push_prepared(&mut defaults, prepare_exec("petro signs", "PetroSigns", false));
        push_prepared(&mut defaults, prepare_exec("qwen", "Qwen3", false));
        proof {
            assert(prepared_view(defaults@) =~= default_entries());
        }
        return defaults;
    }
    out
}

fn insert_position_exec(sorted: &Vec<PreparedEntry>, count: usize) -> (i: usize)
    ensures
        i == insert_position(prepared_view(sorted@), count as nat),
        i <= sorted@.len(),
{
    let ghost sv = prepared_view(sorted@);
    let mut i: usize = sorted.len();
    proof {
        assert(sv.take(sv.len() as int) =~= sv);
    }
    while i > 0 && sorted[i - 1].word_count < count
        invariant
            sv == prepared_view(sorted@),
            i <= sorted@.len(),
            insert_position(sv, count as nat) == insert_position(sv.take(i as int), count as nat),
        decreases i,
    {
        proof {
            assert(sv.take(i as int).drop_last() =~= sv.take(i - 1));
            assert(sv.take(i as int).last().3 == sorted@[i - 1].word_count);
        }
        i = i - 1;
    }
    proof {
        if i > 0 {
            assert(sv.take(i as int).last().3 == sorted@[i - 1].word_count);
        }
    }
    i
}

fn sort_by_count(v: Vec<PreparedEntry>) -> (r: Vec<PreparedEntry>)
    ensures
        prepared_view(r@) == sort_by_word_count(prepared_view(v@)),
{
    let ghost pv = prepared_view(v@);
    let mut sorted: Vec<PreparedEntry> = Vec::new();
    let mut rest = v;
    let ghost mut k: int = 0;
    proof {
        assert(pv.take(0) =~= Seq::<Prepared>::empty());
        assert(prepared_view(sorted@) =~= Seq::<Prepared>::empty());
        assert(pv.skip(0) =~= pv);
    }
    while rest.len() > 0
        invariant
            0 <= k <= pv.len(),
            prepared_view(rest@) == pv.skip(k),
            prepared_view(sorted@) == sort_by_word_count(pv.take(k)),
        decreases rest@.len(),
    {
        let ghost rest0 = rest@;
        proof {
            assert(prepared_view(rest0).len() == rest0.len());
            assert(k < pv.len());
            assert(prepared_view(rest0)[0] == pv[k]);
        }
        let e = rest.remove(0);
        proof {
            assert(rest@ =~= rest0.subrange(1, rest0.len() as int));
            assert(prepared_view(rest@) =~= prepared_view(rest0).skip(1));
            assert(pv.skip(k).skip(1) =~= pv.skip(k + 1));
            assert(prepared_view(rest@) =~= pv.skip(k + 1));
            assert(pv.take(k + 1).drop_last() =~= pv.take(k));
            assert(pv.take(k + 1).last() == pv[k]);
            assert(pv[k] == (e.spoken@, e.output@, e.case_sensitive, e.word_count as nat));
        }
        let pos = insert_position_exec(&sorted, e.word_count);
        let ghost before = sorted@;
        sorted.insert(pos, e);
        proof {
            assert(prepared_view(sorted@) =~= prepared_view(before).insert(pos as int, pv[k]));
            k = k + 1;
        }
    }
    proof {
        assert(pv.take(k) =~= pv);
    }
    sorted
}

fn phrase_pattern_exec(spoken: &Vec<char>, case_sensitive: bool) -> (p: String)
    ensures
        p@ == phrase_pattern(spoken@, case_sensitive),
{
    let escaped = escape(string_of(spoken).as_str());
    let esc_chars = chars_of(escaped.as_str());
    proof {
        reveal_strlit(" ");
    }
    let flexible = replace_chars(&esc_chars, " ", r"\s+");
    let mut out = if case_sensitive { chars_of(r"\b") } else { chars_of(r"(?i)\b") };
    append(&mut out, &flexible);
    let end = chars_of(r"\b");
    append(&mut out, &end);
    string_of(&out)
}

/// Writes each vocabulary phrase of the request as its output, longest phrase first.
pub fn expand_vocabulary(text: &str, request: &TransformationRequest) -> (r: String)
    ensures
        r@ == spec_expand_vocabulary(text@, *request),
{
    let entries = entries_for(request);
    let sorted = sort_by_count(entries);
    let ghost sv = prepared_view(sorted@);
    let mut result = text.to_owned();
    let mut k: usize = 0;
    proof {
        assert(sv.take(0) =~= Seq::<Prepared>::empty());
    }
    while k < sorted.len()
        invariant
            sv == prepared_view(sorted@),
            k <= sorted@.len(),
            result@ == apply_entries(text@, sv.take(k as int)),
        decreases sorted@.len() - k,
    {
        let e = &sorted[k];
        let pattern = phrase_pattern_exec(&e.spoken, e.case_sensitive);
        result = replace_or_keep(pattern.as_str(), result.as_str(), e.output.as_str());
        proof {
            assert(sv.take(k + 1).drop_last() =~= sv.take(k as int));
            assert(sv.take(k + 1).last() == sv[k as int]);
        }
        k = k + 1;
    }
    proof {
        assert(sv.take(sorted@.len() as int) =~= sv);
    }
    result
}

/// The normalization-pass rule for vocabulary, run on every request.
pub struct VocabularyRule;

impl FormatterRule for VocabularyRule {
    open spec fn obeys_rule_spec(&self) -> bool {
        true
    }

    open spec fn spec_metadata(&self) -> RuleMetadata {
        builtin_metadata("Vocabulary", RuleCategory::Normalization, 800, regex_capabilities(false, false, true))
    }

    open spec fn spec_applies(&self, request: TransformationRequest) -> bool {
        true
    }

    open spec fn rewrite(&self, text: Seq<char>, request: TransformationRequest) -> Seq<char> {
        spec_expand_vocabulary(text, request)
    }

    fn metadata(&self) -> (m: RuleMetadata) {
        builtin("Vocabulary", RuleCategory::Normalization, 800, streaming_regex_capabilities(false, false, true))
    }

    fn applies(&self, _request: &TransformationRequest) -> (r: bool) {
        true
    }

    fn apply(&self, state: &mut TransformationState, request: &TransformationRequest)
        ensures
            logs_run(old(state).diagnostics@, final(state).diagnostics@, "Vocabulary", old(state).current_text@, final(state).current_text@),
    {
        let started = instant_now();
        let before = state.current_text.clone();
        state.current_text = expand_vocabulary(state.current_text.as_str(), request);
        finish_rule_run(state, "Vocabulary", before, &started);
    }
}

} // verus!
