use vstd::prelude::*;

use crate::text::{byte_len, utf8_len};

verus! {

#[derive(Debug, Clone, Copy, PartialEq, Eq, Structural)]
pub enum RegionType {
    /// The text has stabilized and is safe to format.
    Stable,
    /// The text is still changing (e.g., partial STT delta).
    Unstable,
    /// The text was already formatted or protected and should NOT be touched.
    Protected,
}

/// A byte range of the text and its stability.
#[derive(Debug, Clone, Copy, PartialEq, Eq, Structural)]
pub struct Region {
    pub start: usize,
    pub end: usize,
    pub region_type: RegionType,
}

pub struct RegionClassifier;

/// The regions from protected span `k` on, the text before it ending at byte
/// `offset`: a stable region for any gap before each protected span, the
/// protected span itself, and a stable region for what follows the last one.
pub open spec fn regions_from(spans: Seq<(usize, usize)>, k: int, offset: usize, len: usize) -> Seq<Region>
    decreases spans.len() - k,
{
    if k < 0 || k >= spans.len() {
        if offset < len {
            seq![Region { start: offset, end: len, region_type: RegionType::Stable }]
        } else {
            seq![]
        }
    } else {
        let (ps, pe) = spans[k];
        let gap = if ps > offset {
            seq![Region { start: offset, end: ps, region_type: RegionType::Stable }]
        } else {
            seq![]
        };
        gap + seq![Region { start: ps, end: pe, region_type: RegionType::Protected }] + regions_from(spans, k + 1, pe, len)
    }
}

impl RegionClassifier {
    pub fn new() -> Self {
        Self
    }

    /// Classifies regions of a string based on their stability.
    pub fn classify(&self, text: &str, protected_spans: &[(usize, usize)]) -> (regions: Vec<Region>)
        ensures
            regions@ == regions_from(protected_spans@, 0, 0, utf8_len(text@) as usize),
    {
        let len = byte_len(text);
        let mut regions: Vec<Region> = Vec::new();
        let mut current_offset: usize = 0;
        let mut k: usize = 0;
        while k < protected_spans.len()
            invariant
                k <= protected_spans@.len(),
                len == utf8_len(text@),
                regions_from(protected_spans@, 0, 0, len) == regions@ + regions_from(protected_spans@, k as int, current_offset, len),
            decreases protected_spans.len() - k,
        {
            let (p_start, p_end) = protected_spans[k];
            let ghost before = regions@;
            if p_start > current_offset {
                regions.push(Region { start: current_offset, end: p_start, region_type: RegionType::Stable });
            }
            regions.push(Region { start: p_start, end: p_end, region_type: RegionType::Protected });
            proof {
                assert(regions_from(protected_spans@, k as int, current_offset, len) =~= (regions@.skip(before.len() as int)) + regions_from(protected_spans@, k + 1, p_end, len));
                assert(before + (regions@.skip(before.len() as int) + regions_from(protected_spans@, k + 1, p_end, len)) =~= regions@ + regions_from(protected_spans@, k + 1, p_end, len));
            }
            current_offset = p_end;
            k += 1;
        }
        if current_offset < len {
            regions.push(Region { start: current_offset, end: len, region_type: RegionType::Stable });
        }
        proof {
            assert(regions_from(protected_spans@, k as int, current_offset, len) =~= regions@.skip(regions@.len() - regions_from(protected_spans@, k as int, current_offset, len).len()));
        }
        regions
    }
}

/// Whether `spans` are in order, each within `len` bytes and none overlapping
/// the next.
pub open spec fn ordered_spans(spans: Seq<(usize, usize)>, len: usize) -> bool {
    &&& forall|k: int| 0 <= k < spans.len() ==> (#[trigger] spans[k]).0 <= spans[k].1 <= len
    &&& forall|j: int, k: int| 0 <= j < k < spans.len() ==> (#[trigger] spans[j]).1 <= (#[trigger] spans[k]).0
}

/// Whether region `i` ends where region `i + 1` begins.
pub open spec fn adjacent(regions: Seq<Region>, i: int) -> bool {
    regions[i].end == regions[i + 1].start
}

/// Whether `regions` tile the bytes from `a` to `b`: each begins where the
/// one before it ends, the first at `a` and the last at `b`, none backwards
/// (no region at all when `a == b`).
pub open spec fn tiles(regions: Seq<Region>, a: int, b: int) -> bool {
    &&& regions.len() == 0 ==> a == b
    &&& regions.len() > 0 ==> regions[0].start == a && regions.last().end == b
    &&& forall|i: int| 0 <= i < regions.len() ==> (#[trigger] regions[i]).start <= regions[i].end
    &&& forall|i: int| 0 <= i < regions.len() - 1 ==> #[trigger] adjacent(regions, i)
}

/// The regions from span `k` on tile the text from `offset` to its end.
proof fn lemma_regions_from_tile(spans: Seq<(usize, usize)>, k: int, offset: usize, len: usize)
    requires
        0 <= k <= spans.len(),
        ordered_spans(spans, len),
        offset <= len,
        k < spans.len() ==> offset <= spans[k].0,
    ensures
        tiles(regions_from(spans, k, offset, len), offset as int, len as int),
    decreases spans.len() - k,
{
    if k < spans.len() {
        let (ps, pe) = spans[k];
        assert(spans[k].0 <= spans[k].1 <= len);
        if k + 1 < spans.len() {
            assert(spans[k].1 <= spans[k + 1].0);
        }
        lemma_regions_from_tile(spans, k + 1, pe, len);
        let gap = if ps > offset {
            seq![Region { start: offset, end: ps, region_type: RegionType::Stable }]
        } else {
            seq![]
        };
        let head = gap + seq![Region { start: ps, end: pe, region_type: RegionType::Protected }];
        let rest = regions_from(spans, k + 1, pe, len);
        let all = head + rest;
        assert(regions_from(spans, k, offset, len) == all);
        assert(head.last().end == pe);
        assert(head[0].start == offset);
        assert forall|i: int| 0 <= i < all.len() implies (#[trigger] all[i]).start <= all[i].end by {
            if i >= head.len() {
                assert(all[i] == rest[i - head.len()]);
            }
        }
        assert forall|i: int| 0 <= i < all.len() - 1 implies #[trigger] adjacent(all, i) by {
            if i + 1 < head.len() {
                assert(all[i] == head[i] && all[i + 1] == head[i + 1]);
            } else if i + 1 == head.len() {
                assert(all[i] == head.last());
                assert(all[i + 1] == rest[0]);
            } else {
                assert(all[i] == rest[i - head.len()] && all[i + 1] == rest[i + 1 - head.len()]);
                assert(adjacent(rest, i - head.len()));
            }
        }
        if rest.len() == 0 {
            assert(all.last() == head.last());
        } else {
            assert(all.last() == rest.last());
        }
    }
}

/// With protected spans in order, within the text and not overlapping, the
/// regions cover the text from its first byte to its last, without gaps or
/// overlaps.
pub proof fn lemma_regions_tile_text(spans: Seq<(usize, usize)>, len: usize)
    requires
        ordered_spans(spans, len),
    ensures
        tiles(regions_from(spans, 0, 0, len), 0, len as int),
{
    lemma_regions_from_tile(spans, 0, 0, len);
}

/// The spans of the protected regions of `rs`, in order.
pub open spec fn protected_spans_of(rs: Seq<Region>) -> Seq<(usize, usize)>
    decreases rs.len(),
{
    if rs.len() == 0 {
        seq![]
    } else {
        let first = if rs[0].region_type == RegionType::Protected {
            seq![(rs[0].start, rs[0].end)]
        } else {
            seq![]
        };
        first + protected_spans_of(rs.drop_first())
    }
}

/// Whether every region of `rs` that is not protected is a stable region of
/// at least one byte.
pub open spec fn others_stable(rs: Seq<Region>) -> bool {
    forall|i: int| 0 <= i < rs.len() && (#[trigger] rs[i]).region_type != RegionType::Protected
        ==> rs[i].region_type == RegionType::Stable && rs[i].start < rs[i].end
}

proof fn lemma_protected_concat(a: Seq<Region>, b: Seq<Region>)
    ensures
        protected_spans_of(a + b) == protected_spans_of(a) + protected_spans_of(b),
    decreases a.len(),
{
    if a.len() == 0 {
        assert(a + b =~= b);
        assert(protected_spans_of(a) + protected_spans_of(b) =~= protected_spans_of(b));
    } else {
        assert((a + b).drop_first() =~= a.drop_first() + b);
        assert((a + b)[0] == a[0]);
        lemma_protected_concat(a.drop_first(), b);
        let first = if a[0].region_type == RegionType::Protected {
            seq![(a[0].start, a[0].end)]
        } else {
            seq![]
        };
        assert(first + (protected_spans_of(a.drop_first()) + protected_spans_of(b)) =~= (first + protected_spans_of(a.drop_first())) + protected_spans_of(b));
    }
}

proof fn lemma_regions_from_kinds(spans: Seq<(usize, usize)>, k: int, offset: usize, len: usize)
    requires
        0 <= k <= spans.len(),
    ensures
        protected_spans_of(regions_from(spans, k, offset, len)) == spans.skip(k),
        others_stable(regions_from(spans, k, offset, len)),
    decreases spans.len() - k,
{
    let rs = regions_from(spans, k, offset, len);
    assert(protected_spans_of(Seq::<Region>::empty()) =~= Seq::<(usize, usize)>::empty());
    if k < spans.len() {
        let (ps, pe) = spans[k];
        lemma_regions_from_kinds(spans, k + 1, pe, len);
        let gap = if ps > offset {
            seq![Region { start: offset, end: ps, region_type: RegionType::Stable }]
        } else {
            seq![]
        };
        let prot = seq![Region { start: ps, end: pe, region_type: RegionType::Protected }];
        let rest = regions_from(spans, k + 1, pe, len);
        assert(rs == gap + prot + rest);
        lemma_protected_concat(gap + prot, rest);
        lemma_protected_concat(gap, prot);
        assert(protected_spans_of(gap) =~= Seq::<(usize, usize)>::empty()) by {
            if gap.len() > 0 {
                assert(gap.drop_first() =~= Seq::<Region>::empty());
                assert(gap[0].region_type == RegionType::Stable);
            }
        }
        assert(prot.drop_first() =~= Seq::<Region>::empty());
        assert(protected_spans_of(prot) =~= seq![(ps, pe)]);
        assert(spans.skip(k) =~= seq![(ps, pe)] + spans.skip(k + 1));
        assert(protected_spans_of(rs) =~= spans.skip(k));
        assert forall|i: int| 0 <= i < rs.len() && (#[trigger] rs[i]).region_type != RegionType::Protected
            implies rs[i].region_type == RegionType::Stable && rs[i].start < rs[i].end by {
            let h = gap + prot;
            if i >= h.len() {
                assert(rs[i] == rest[i - h.len()]);
            } else if i < gap.len() {
                assert(rs[i] == gap[i]);
            } else {
                assert(rs[i] == prot[i - gap.len()]);
            }
        }
    } else {
        assert(spans.skip(k) =~= Seq::<(usize, usize)>::empty());
        if offset < len {
            assert(rs.drop_first() =~= Seq::<Region>::empty());
            assert(rs[0].region_type == RegionType::Stable);
            assert(protected_spans_of(rs) =~= Seq::<(usize, usize)>::empty());
        }
    }
}

/// The protected regions are exactly the protected spans, in order, and
/// every other region is a stable one of at least one byte (none is left
/// unstable).
pub proof fn lemma_regions_kinds(spans: Seq<(usize, usize)>, len: usize)
    ensures
        protected_spans_of(regions_from(spans, 0, 0, len)) == spans,
        others_stable(regions_from(spans, 0, 0, len)),
{
    lemma_regions_from_kinds(spans, 0, 0, len);
    assert(spans.skip(0) =~= spans);
}

} // verus!
