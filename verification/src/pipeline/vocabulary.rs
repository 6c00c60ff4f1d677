//! Canonical spellings for the aliases a speech recognizer produces.
use vstd::prelude::*;

use regex::RegexBuilder;

use crate::matching::{escape, replace_or_keep, replaced, spec_escape};
use crate::text::{append, byte_len, chars_of, string_of, utf8_len};

verus! {

/// A canonical spelling and the aliases that stand for it.
#[derive(Debug, Clone)]
pub struct VocabularyItem {
    pub canonical: String,
    pub aliases: Vec<String>,
}

/// Whether `RegexBuilder::new(pattern).case_insensitive(true).build()` succeeds.
pub uninterp spec fn spec_pattern_compiles(pattern: Seq<char>) -> bool;

/// `RegexBuilder::build` with case-insensitive matching (regex crate): claims
/// the result is the named outcome for this pattern.
#[verifier::external_body]
fn pattern_compiles(pattern: &str) -> (r: bool)
    ensures
        r == spec_pattern_compiles(pattern@),
{
    RegexBuilder::new(pattern).case_insensitive(true).build().is_ok()
}

/// The whole-word, case-insensitive pattern of an alias.
pub open spec fn alias_pattern(alias: Seq<char>) -> Seq<char> {
    r"(?i)\b"@ + spec_escape(alias) + r"\b"@
}

/// The (pattern, canonical) pairs of the aliases of `items` whose pattern compiles, in order.
pub open spec fn alias_rules(items: Seq<VocabularyItem>) -> Seq<(Seq<char>, Seq<char>)>
    decreases items.len(),
{
    if items.len() == 0 {
        seq![]
    } else {
        alias_rules(items.drop_last()) + item_rules(items.last().aliases@, items.last().canonical@)
    }
}

/// The (pattern, canonical) pairs of one item's aliases whose pattern compiles.
pub open spec fn item_rules(aliases: Seq<String>, canonical: Seq<char>) -> Seq<(Seq<char>, Seq<char>)>
    decreases aliases.len(),
{
    if aliases.len() == 0 {
        seq![]
    } else {
        let rest = item_rules(aliases.drop_last(), canonical);
        let p = alias_pattern(aliases.last()@);
        if spec_pattern_compiles(p) {
            rest.push((p, canonical))
        } else {
            rest
        }
    }
}

/// Where a pattern of `n` bytes goes in a list sorted by descending pattern
/// length: after every pattern at least as long.
pub open spec fn length_slot(sorted: Seq<(Seq<char>, Seq<char>)>, n: nat) -> int
    decreases sorted.len(),
{
    if sorted.len() == 0 {
        0
    } else if utf8_len(sorted.last().0) >= n {
        sorted.len() as int
    } else {
        length_slot(sorted.drop_last(), n)
    }
}

/// The pairs sorted by descending pattern length (in bytes), ties keeping their order.
pub open spec fn sort_by_length(s: Seq<(Seq<char>, Seq<char>)>) -> Seq<(Seq<char>, Seq<char>)>
    decreases s.len(),
{
    if s.len() == 0 {
        s
    } else {
        let sorted = sort_by_length(s.drop_last());
        sorted.insert(length_slot(sorted, utf8_len(s.last().0)), s.last())
    }
}

/// `text` after replacing each pattern's matches by its canonical spelling, in order.
pub open spec fn apply_aliases(text: Seq<char>, rules: Seq<(Seq<char>, Seq<char>)>) -> Seq<char>
    decreases rules.len(),
{
    if rules.len() == 0 {
        text
    } else {
        replaced(rules.last().0, apply_aliases(text, rules.drop_last()), rules.last().1)
    }
}

/// Writes the canonical spelling for each known alias.
pub struct VocabularyEngine {
    items: Vec<VocabularyItem>,
    patterns: Vec<(String, String)>,
}

pub open spec fn pairs_view(v: Seq<(String, String)>) -> Seq<(Seq<char>, Seq<char>)> {
    v.map_values(|p: (String, String)| (p.0@, p.1@))
}

impl VocabularyEngine {
    /// The (pattern, canonical) pairs the engine applies, in order.
    pub closed spec fn rules(&self) -> Seq<(Seq<char>, Seq<char>)> {
        pairs_view(self.patterns@)
    }

    /// An engine for `items`: one whole-word, case-insensitive pattern per
    /// alias (dropped when it does not compile), longest pattern first.
    pub fn new(items: Vec<VocabularyItem>) -> (e: Self)
        ensures
            e.rules() == sort_by_length(alias_rules(items@)),
    {
        let mut pairs: Vec<(String, String)> = Vec::new();
        let mut i: usize = 0;
        proof {
            assert(items@.take(0) =~= Seq::<VocabularyItem>::empty());
            assert(pairs_view(pairs@) =~= Seq::<(Seq<char>, Seq<char>)>::empty());
        }
        while i < items.len()
            invariant
                i <= items@.len(),
                pairs_view(pairs@) == alias_rules(items@.take(i as int)),
            decreases items@.len() - i,
        {
            let item = &items[i];
            let ghost base = pairs_view(pairs@);
            let mut j: usize = 0;
            proof {
                assert(item.aliases@.take(0) =~= Seq::<String>::empty());
                assert(base + item_rules(item.aliases@.take(0), item.canonical@) =~= base);
            }
            while j < item.aliases.len()
                invariant
                    j <= item.aliases@.len(),
                    pairs_view(pairs@) == base + item_rules(item.aliases@.take(j as int), item.canonical@),
                decreases item.aliases@.len() - j,
            {
                let escaped = escape(item.aliases[j].as_str());
                let mut p = chars_of(r"(?i)\b");
                let ec = chars_of(escaped.as_str());
                append(&mut p, &ec);
                let end = chars_of(r"\b");
                append(&mut p, &end);
                let pattern = string_of(&p);
                proof {
                    assert(item.aliases@.take(j + 1).drop_last() =~= item.aliases@.take(j as int));
                    assert(item.aliases@.take(j + 1).last() == item.aliases@[j as int]);
                }
                if pattern_compiles(pattern.as_str()) {
                    let ghost before = pairs@;
                    pairs.push((pattern, item.canonical.clone()));
                    proof {
                        assert(pairs_view(pairs@) =~= pairs_view(before).push((p@, item.canonical@)));
                    }
                }
                j = j + 1;
            }
            proof {
                assert(item.aliases@.take(item.aliases@.len() as int) =~= item.aliases@);
                assert(items@.take(i + 1).drop_last() =~= items@.take(i as int));
                assert(items@.take(i + 1).last() == *item);
            }
            i = i + 1;
        }
        proof {
            assert(items@.take(items@.len() as int) =~= items@);
        }
        let sorted = sort_pairs(pairs);
        Self { items, patterns: sorted }
    }

    /// Replaces each alias by its canonical spelling, longest pattern first.
    pub fn apply(&self, text: &str) -> (r: String)
        ensures
            r@ == apply_aliases(text@, self.rules()),
    {
        let ghost rv = self.rules();
        let mut result = text.to_owned();
        let mut k: usize = 0;
        proof {
            assert(rv.take(0) =~= Seq::<(Seq<char>, Seq<char>)>::empty());
        }
        while k < self.patterns.len()
            invariant
                rv == pairs_view(self.patterns@),
                k <= self.patterns@.len(),
                result@ == apply_aliases(text@, rv.take(k as int)),
            decreases self.patterns@.len() - k,
        {
            let (pattern, canonical) = &self.patterns[k];
            result = replace_or_keep(pattern.as_str(), result.as_str(), canonical.as_str());
            proof {
                assert(rv.take(k + 1).drop_last() =~= rv.take(k as int));
                assert(rv.take(k + 1).last() == rv[k as int]);
            }
            k = k + 1;
        }
        proof {
            assert(rv.take(self.patterns@.len() as int) =~= rv);
        }
        result
    }
}

fn sort_pairs(v: Vec<(String, String)>) -> (r: Vec<(String, String)>)
    ensures
        pairs_view(r@) == sort_by_length(pairs_view(v@)),
{
    let ghost pv = pairs_view(v@);
    let mut sorted: Vec<(String, String)> = Vec::new();
    let mut rest = v;
    let ghost mut k: int = 0;
    proof {
        assert(pv.take(0) =~= Seq::<(Seq<char>, Seq<char>)>::empty());
        assert(pairs_view(sorted@) =~= Seq::<(Seq<char>, Seq<char>)>::empty());
        assert(pv.skip(0) =~= pv);
    }
    while rest.len() > 0
        invariant
            0 <= k <= pv.len(),
            pairs_view(rest@) == pv.skip(k),
            pairs_view(sorted@) == sort_by_length(pv.take(k)),
        decreases rest@.len(),
    {
        let ghost rest0 = rest@;
        proof {
            assert(pairs_view(rest0).len() == rest0.len());
            assert(k < pv.len());
            assert(pairs_view(rest0)[0] == pv[k]);
        }
        let e = rest.remove(0);
        proof {
            assert(rest@ =~= rest0.subrange(1, rest0.len() as int));
            assert(pairs_view(rest@) =~= pairs_view(rest0).skip(1));
            assert(pv.skip(k).skip(1) =~= pv.skip(k + 1));
            assert(pv.take(k + 1).drop_last() =~= pv.take(k));
            assert(pv.take(k + 1).last() == pv[k]);
        }
        let n = byte_len(e.0.as_str());
        let ghost sv = pairs_view(sorted@);
        let mut i: usize = sorted.len();
        proof {
            assert(sv.take(sv.len() as int) =~= sv);
        }
        while i > 0 && byte_len(sorted[i - 1].0.as_str()) < n
            invariant
                sv == pairs_view(sorted@),
                i <= sorted@.len(),
                n == utf8_len(e.0@),
                length_slot(sv, n as nat) == length_slot(sv.take(i as int), n as nat),
            decreases i,
        {
            proof {
                assert(sv.take(i as int).drop_last() =~= sv.take(i - 1));
                assert(sv.take(i as int).last() == sv[i - 1]);
            }
            i = i - 1;
        }
        proof {
            if i > 0 {
                assert(sv.take(i as int).last() == sv[i - 1]);
            }
        }
        let ghost before = sorted@;
        sorted.insert(i, e);
        proof {
            assert(pairs_view(sorted@) =~= pairs_view(before).insert(i as int, pv[k]));
            k = k + 1;
        }
    }
    proof {
        assert(pv.take(k) =~= pv);
    }
    sorted
}

} // verus!
