//! Special-casing functions: a chunked decision predicate over the sparse
//! set of code points whose uppercased form is more than one code point,
//! plus the length and append queries over the same mapping.

use vstd::prelude::*;

use crate::int_ranges::{
    collect_int_ranges, in_ranges, lemma_coalesced_correct, ranges_ordered, sorted_strict,
    CodePointSet, IntRange,
};
use crate::MAX_BMP;

verus! {

/// The unconditional special uppercase mapping: each BMP code point maps to
/// the short ordered sequence of code points of its uppercased form.
pub struct SpecialCaseMap {
    /// The (source, replacements) pairs, strictly increasing by source.
    pub entries: Vec<(u32, Vec<u32>)>,
}

impl SpecialCaseMap {
    /// Keys are strictly increasing BMP code points and every replacement
    /// sequence holds one to three BMP code points.
    pub open spec fn wf(&self) -> bool {
        &&& forall|a: int, b: int|
            0 <= a < b < self.entries@.len() ==> self.entries@[a].0 < self.entries@[b].0
        &&& forall|i: int|
            0 <= i < self.entries@.len() ==> (#[trigger] self.entries@[i]).0 <= MAX_BMP && 1
                <= self.entries@[i].1@.len() <= 3
        &&& forall|i: int, t: int|
            0 <= i < self.entries@.len() && 0 <= t < self.entries@[i].1@.len()
                ==> #[trigger] self.entries@[i].1@[t] <= MAX_BMP
    }
}

/// Whether some entry of the mapping has `c` as its source code point.
pub open spec fn special_map_has_code(entries: Seq<(u32, Vec<u32>)>, c: u32) -> bool {
    exists|i: int| 0 <= i < entries.len() && (#[trigger] entries[i]).0 == c
}

/// The replacement sequence that the mapping assigns to source `c`.
pub open spec fn replacement_of(entries: Seq<(u32, Vec<u32>)>, c: u32) -> Seq<u32>
    recommends
        special_map_has_code(entries, c),
{
    entries[choose|i: int| 0 <= i < entries.len() && (#[trigger] entries[i]).0 == c].1@
}

/// In a mapping with strictly increasing keys, the entry found for the key
/// of entry `i` is entry `i` itself.
proof fn lemma_replacement_at(entries: Seq<(u32, Vec<u32>)>, i: int)
    requires
        forall|a: int, b: int| 0 <= a < b < entries.len() ==> entries[a].0 < entries[b].0,
        0 <= i < entries.len(),
    ensures
        special_map_has_code(entries, entries[i].0),
        replacement_of(entries, entries[i].0) == entries[i].1@,
{
    assert(special_map_has_code(entries, entries[i].0));
    let j = choose|j: int| 0 <= j < entries.len() && (#[trigger] entries[j]).0 == entries[i].0;
    if j < i {
        assert(entries[j].0 < entries[i].0);
    } else if i < j {
        assert(entries[i].0 < entries[j].0);
    }
}

/// The last (largest) code point of a non-empty set.
pub fn last_in_set(set: &CodePointSet) -> (r: u32)
    requires
        set.codes@.len() > 0,
    ensures
        r == set.codes@.last(),
{
    set.codes[set.codes.len() - 1]
}

/// Membership of `code` in any of at least two ranges: the plain
/// disjunction of per-range tests, with an equality test for a singleton
/// range and a bounds pair otherwise.
pub fn in_any_range(ranges: &Vec<IntRange>, code: u32) -> (r: bool)
    requires
        ranges@.len() > 1,
    ensures
        r == in_ranges(ranges@, code),
{
    let mut k: usize = 0;
    while k < ranges.len()
        invariant
            k <= ranges@.len(),
            forall|t: int| 0 <= t < k ==> !((#[trigger] ranges@[t]).0 <= code <= ranges@[t].1),
        decreases ranges@.len() - k,
    {
        let rg = ranges[k];
        let hit = if rg.0 == rg.1 {
            code == rg.0
        } else {
            rg.0 <= code && code <= rg.1
        };
        if hit {
            assert(ranges@[k as int].0 <= code <= ranges@[k as int].1);
            return true;
        }
        k = k + 1;
    }
    false
}

/// Evaluate one interval-test block of membership logic for `code`, with the
/// short-circuit structure the surrounding decision relies on:
///
/// - one contiguous range: a single upper-bound guard and, within it, the
///   lower bound — a definitive answer at or below the range, a
///   fall-through above it;
/// - several ranges: an outright rejection below the least range, the
///   disjunction of the range tests up to the greatest range, and a
///   fall-through above it.
///
/// `Some` is the answer for a code point at or below the block's greatest
/// member; `None` means the block says nothing about larger code points.
pub fn accept_range(ranges: &Vec<IntRange>, code: u32) -> (r: Option<bool>)
    requires
        ranges@.len() >= 1,
        ranges_ordered(ranges@),
    ensures
        (r == Some(true)) <==> in_ranges(ranges@, code),
        r is None <==> code > ranges@.last().1,
{
    proof {
        assert forall|k: int| 0 <= k < ranges@.len() implies (#[trigger] ranges@[k]).0
            >= ranges@[0].0 && ranges@[k].1 <= ranges@.last().1 by {
            if k > 0 {
                assert(ranges@[0].1 + 1 < ranges@[k].0);
            }
            if k < ranges@.len() - 1 {
                assert(ranges@[k].1 + 1 < ranges@[ranges@.len() - 1].0);
            }
        }
    }
    if ranges.len() == 1 {
        let rg = ranges[0];
        if code <= rg.1 {
            proof {
                if rg.0 <= code {
                    assert(in_ranges(ranges@, code));
                }
            }
            return Some(rg.0 <= code);
        }
        None
    } else {
        let min_in_range = ranges[0].0;
        let max_in_range = ranges[ranges.len() - 1].1;
        if code < min_in_range {
            return Some(false);
        }
        if code <= max_in_range {
            return Some(in_any_range(ranges, code));
        }
        None
    }
}

/// Splitting a prefix: membership in the first `b` elements is membership
/// in the first `a` of them or in the slice from `a` up to `b`.
proof fn lemma_take_extend(s: Seq<u32>, a: int, b: int, c: u32)
    requires
        0 <= a <= b <= s.len(),
    ensures
        s.take(b).contains(c) <==> s.take(a).contains(c) || s.subrange(a, b).contains(c),
{
    if s.take(b).contains(c) {
        let i = choose|i: int| 0 <= i < b && s.take(b)[i] == c;
        if i < a {
            assert(s.take(a)[i] == c);
            assert(s.take(a).contains(c));
        } else {
            assert(s.subrange(a, b)[i - a] == c);
            assert(s.subrange(a, b).contains(c));
        }
    }
    if s.take(a).contains(c) {
        let i = choose|i: int| 0 <= i < a && s.take(a)[i] == c;
        assert(s.take(b)[i] == c);
        assert(s.take(b).contains(c));
    }
    if s.subrange(a, b).contains(c) {
        let i = choose|i: int| 0 <= i < b - a && s.subrange(a, b)[i] == c;
        assert(s.take(b)[a + i] == c);
        assert(s.take(b).contains(c));
    }
}

/// One block of the chunked decision: either a direct range test over a
/// small cluster of code points, or — for a dense chunk — the cluster's
/// sub-chunk tests wrapped in a single upper-bound guard.
pub enum ChunkTests {
    /// A chunk of at most a few members, tested directly.
    Direct(Vec<IntRange>),
    /// A dense chunk: the guard bound (its greatest member) and one range
    /// test per non-empty sub-chunk, in ascending order.
    Guarded(u32, Vec<Vec<IntRange>>),
}

impl ChunkTests {
    /// Every contained range list is non-empty and ordered, sub-chunks
    /// ascend, and a guard bound is its chunk's greatest member.
    pub open spec fn wf(&self) -> bool {
        match self {
            ChunkTests::Direct(ranges) => ranges@.len() >= 1 && ranges_ordered(ranges@),
            ChunkTests::Guarded(last, subs) => {
                &&& subs@.len() >= 1
                &&& (forall|j: int|
                    0 <= j < subs@.len() ==> (#[trigger] subs@[j])@.len() >= 1 && ranges_ordered(
                        subs@[j]@,
                    ))
                &&& (forall|j1: int, j2: int|
                    0 <= j1 < j2 < subs@.len() ==> subs@[j1]@.last().1 < subs@[j2]@[0].0)
                &&& *last == subs@.last()@.last().1
            }
        }
    }

    /// Whether the block's ranges cover code point `c`.
    pub open spec fn contains(&self, c: u32) -> bool {
        match self {
            ChunkTests::Direct(ranges) => in_ranges(ranges@, c),
            ChunkTests::Guarded(last, subs) => exists|j: int|
                0 <= j < subs@.len() && in_ranges((#[trigger] subs@[j])@, c),
        }
    }

    /// The least code point the block covers.
    pub open spec fn spec_min(&self) -> u32 {
        match self {
            ChunkTests::Direct(ranges) => ranges@[0].0,
            ChunkTests::Guarded(last, subs) => subs@[0]@[0].0,
        }
    }

    /// The greatest code point the block covers.
    pub open spec fn spec_max(&self) -> u32 {
        match self {
            ChunkTests::Direct(ranges) => ranges@.last().1,
            ChunkTests::Guarded(last, subs) => *last,
        }
    }
}

/// An ordered, non-empty range list spans from its first start to its last
/// end.
proof fn lemma_ranges_span(rs: Seq<IntRange>)
    requires
        rs.len() >= 1,
        ranges_ordered(rs),
    ensures
        forall|k: int| 0 <= k < rs.len() ==> rs[0].0 <= (#[trigger] rs[k]).0 && rs[k].1
            <= rs.last().1,
        rs[0].0 <= rs.last().1,
{
    assert forall|k: int| 0 <= k < rs.len() implies rs[0].0 <= (#[trigger] rs[k]).0 && rs[k].1
        <= rs.last().1 by {
        if k > 0 {
            assert(rs[0].1 + 1 < rs[k].0);
        }
        if k < rs.len() - 1 {
            assert(rs[k].1 + 1 < rs[rs.len() - 1].0);
        }
    }
    assert(rs[0].0 <= rs[0].1);
}

/// A code point inside an ordered range list lies between the list's first
/// start and last end.
proof fn lemma_in_ranges_bounds(rs: Seq<IntRange>, c: u32)
    requires
        rs.len() >= 1,
        ranges_ordered(rs),
        in_ranges(rs, c),
    ensures
        rs[0].0 <= c <= rs.last().1,
{
    lemma_ranges_span(rs);
    let k = choose|k: int| 0 <= k < rs.len() && (#[trigger] rs[k]).0 <= c <= rs[k].1;
    assert(rs[0].0 <= rs[k].0);
}

/// A well-formed block's least covered code point is at most its greatest.
proof fn lemma_block_minmax(b: &ChunkTests)
    requires
        b.wf(),
    ensures
        b.spec_min() <= b.spec_max(),
{
    match b {
        ChunkTests::Direct(ranges) => {
            lemma_ranges_span(ranges@);
        }
        ChunkTests::Guarded(last, subs) => {
            lemma_ranges_span(subs@[0]@);
            if subs@.len() > 1 {
                assert(subs@[0]@.last().1 < subs@[subs@.len() - 1]@[0].0);
                lemma_ranges_span(subs@.last()@);
            }
        }
    }
}

/// A code point a well-formed block covers lies between the block's least
/// and greatest covered code points.
proof fn lemma_block_bounds(b: &ChunkTests, c: u32)
    requires
        b.wf(),
        b.contains(c),
    ensures
        b.spec_min() <= c <= b.spec_max(),
{
    match b {
        ChunkTests::Direct(ranges) => {
            lemma_in_ranges_bounds(ranges@, c);
        }
        ChunkTests::Guarded(last, subs) => {
            let j = choose|j: int| 0 <= j < subs@.len() && in_ranges((#[trigger] subs@[j])@, c);
            lemma_in_ranges_bounds(subs@[j]@, c);
            lemma_ranges_span(subs@[0]@);
            lemma_ranges_span(subs@[j]@);
            if j > 0 {
                assert(subs@[0]@.last().1 < subs@[j]@[0].0);
            }
            if j < subs@.len() - 1 {
                assert(subs@[j]@.last().1 < subs@[subs@.len() - 1]@[0].0);
                lemma_ranges_span(subs@.last()@);
            }
        }
    }
}

/// The chunked decision for one sparse predicate set: an outer guard pair
/// and the per-chunk blocks, in ascending chunk order.
pub struct ChunkedPredicate {
    /// Least member of the set: the outer guard rejects anything below.
    pub lowest: u32,
    /// Greatest member of the set: the outer guard rejects anything above.
    pub highest: u32,
    /// The per-chunk test blocks, ascending.
    pub chunks: Vec<ChunkTests>,
}

impl ChunkedPredicate {
    /// Blocks are well formed and strictly ascending, and the outer guard
    /// bounds are the least and greatest covered code points.
    pub open spec fn wf(&self) -> bool {
        &&& self.chunks@.len() >= 1
        &&& (forall|k: int| 0 <= k < self.chunks@.len() ==> (#[trigger] self.chunks@[k]).wf())
        &&& (forall|k1: int, k2: int|
            0 <= k1 < k2 < self.chunks@.len() ==> self.chunks@[k1].spec_max()
                < self.chunks@[k2].spec_min())
        &&& self.lowest == self.chunks@[0].spec_min()
        &&& self.highest == self.chunks@.last().spec_max()
    }

    /// Whether the decision's ranges cover code point `c`.
    pub open spec fn contains(&self, c: u32) -> bool {
        exists|k: int| 0 <= k < self.chunks@.len() && (#[trigger] self.chunks@[k]).contains(c)
    }

    /// Decide membership of `code`, by the emitted decision shape: reject
    /// outside the outer bounds, then run the chunk blocks in order, each
    /// either answering or falling through to the next.
    #[verifier::loop_isolation(false)]
    pub fn evaluate(&self, code: u32) -> (r: bool)
        requires
            self.wf(),
        ensures
            r == self.contains(code),
    {
        if code < self.lowest || code > self.highest {
            proof {
                assert forall|k: int|
                    0 <= k < self.chunks@.len() implies !(#[trigger] self.chunks@[k]).contains(
                    code,
                ) by {
                    if self.chunks@[k].contains(code) {
                        lemma_block_bounds(&self.chunks@[k], code);
                        lemma_block_minmax(&self.chunks@[0]);
                        lemma_block_minmax(&self.chunks@[self.chunks@.len() - 1]);
                    }
                }
            }
            return false;
        }
        let mut k: usize = 0;
        while k < self.chunks.len()
            invariant
                k <= self.chunks@.len(),
                forall|t: int|
                    0 <= t < k ==> !(#[trigger] self.chunks@[t]).contains(code) && code
                        > self.chunks@[t].spec_max(),
            decreases self.chunks@.len() - k,
        {
            let block = &self.chunks[k];
            match block {
                ChunkTests::Direct(ranges) => {
                    match accept_range(ranges, code) {
                        Some(b) => {
                            proof {
                                if b {
                                    assert(self.chunks@[k as int].contains(code));
                                } else {
                                    assert forall|t: int|
                                        0 <= t < self.chunks@.len() implies !(
                                    #[trigger] self.chunks@[t]).contains(code) by {
                                        if self.chunks@[t].contains(code) {
                                            lemma_block_bounds(&self.chunks@[t], code);
                                            if t > k as int {
                                                assert(code <= ranges@.last().1);
                                                assert(self.chunks@[k as int].spec_max()
                                                    < self.chunks@[t].spec_min());
                                            }
                                        }
                                    }
                                }
                            }
                            return b;
                        }
                        None => {
                            proof {
                                if self.chunks@[k as int].contains(code) {
                                    lemma_block_bounds(&self.chunks@[k as int], code);
                                }
                            }
                        }
                    }
                }
                ChunkTests::Guarded(last, subs) => {
                    if code <= *last {
                        let mut j: usize = 0;
                        while j < subs.len()
                            invariant
                                j <= subs@.len(),
                                forall|t: int|
                                    0 <= t < j ==> !in_ranges((#[trigger] subs@[t])@, code)
                                        && code > subs@[t]@.last().1,
                            decreases subs@.len() - j,
                        {
                            match accept_range(&subs[j], code) {
                                Some(b) => {
                                    proof {
                                        if b {
                                            assert(in_ranges(subs@[j as int]@, code));
                                            assert(self.chunks@[k as int].contains(code));
                                        } else {
                                            assert forall|t: int|
                                                0 <= t < self.chunks@.len() implies !(
                                            #[trigger] self.chunks@[t]).contains(code) by {
                                                if self.chunks@[t].contains(code) {
                                                    lemma_block_bounds(&self.chunks@[t], code);
                                                    if t > k as int {
                                                        assert(code <= subs@[j as int]@.last().1);
                                                        lemma_ranges_span(subs@[j as int]@);
                                                        if (j as int) < subs@.len() - 1 {
                                                            assert(subs@[j as int]@.last().1
                                                                < subs@[subs@.len() - 1]@[0].0);
                                                            lemma_ranges_span(subs@.last()@);
                                                        }
                                                        assert(code
                                                            <= self.chunks@[k as int].spec_max());
                                                        assert(self.chunks@[k as int].spec_max()
                                                            < self.chunks@[t].spec_min());
                                                    } else if t == k as int {
                                                        let j2 = choose|j2: int|
                                                            0 <= j2 < subs@.len() && in_ranges(
                                                                (#[trigger] subs@[j2])@,
                                                                code,
                                                            );
                                                        lemma_in_ranges_bounds(subs@[j2]@, code);
                                                        if j2 < j as int {
                                                        } else if j2 > j as int {
                                                            assert(subs@[j as int]@.last().1
                                                                < subs@[j2]@[0].0);
                                                        }
                                                    }
                                                }
                                            }
                                        }
                                    }
                                    return b;
                                }
                                None => {}
                            }
                            j = j + 1;
                        }
                        proof {
                            assert(code > subs@[subs@.len() - 1]@.last().1);
                            assert(code > self.chunks@[k as int].spec_max());
                            if self.chunks@[k as int].contains(code) {
                                lemma_block_bounds(&self.chunks@[k as int], code);
                            }
                        }
                    } else {
                        proof {
                            if self.chunks@[k as int].contains(code) {
                                lemma_block_bounds(&self.chunks@[k as int], code);
                            }
                        }
                    }
                }
            }
            k = k + 1;
        }
        false
    }
}

/// Whether some block of `blocks` covers code point `c`.
pub open spec fn blocks_contain(blocks: Seq<ChunkTests>, c: u32) -> bool {
    exists|k: int| 0 <= k < blocks.len() && (#[trigger] blocks[k]).contains(c)
}

/// Compile one small chunk into a direct range test.
fn build_direct_block(chunk_set: &CodePointSet) -> (b: ChunkTests)
    requires
        chunk_set.wf(),
        chunk_set.codes@.len() >= 1,
    ensures
        b.wf(),
        b.spec_min() == chunk_set.codes@[0],
        b.spec_max() == chunk_set.codes@.last(),
        forall|c: u32| b.contains(c) <==> chunk_set.codes@.contains(c),
{
    let ranges = collect_int_ranges(chunk_set);
    proof {
        lemma_coalesced_correct(chunk_set.codes@);
    }
    ChunkTests::Direct(ranges)
}

/// Compile one dense chunk: partition it into 0x100-aligned sub-chunks,
/// compile each into a direct range test, and wrap the tests in a guard on
/// the chunk's greatest member.
#[verifier::loop_isolation(false)]
#[verifier::rlimit(100)]
fn build_guarded_block(chunk_set: &CodePointSet) -> (b: ChunkTests)
    requires
        chunk_set.wf(),
        chunk_set.codes@.len() >= 1,
    ensures
        b.wf(),
        b.spec_min() == chunk_set.codes@[0],
        b.spec_max() == chunk_set.codes@.last(),
        forall|c: u32| b.contains(c) <==> chunk_set.codes@.contains(c),
{
    let ghost chunk = chunk_set.codes@;
    let last = last_in_set(chunk_set);
    let mut subs: Vec<Vec<IntRange>> = Vec::new();
    let m = chunk_set.codes.len();
    let mut p: usize = 0;
    while p < m
        invariant
            p <= m,
            (subs@.len() == 0) <==> (p == 0),
            forall|t: int|
                0 <= t < subs@.len() ==> (#[trigger] subs@[t])@.len() >= 1 && ranges_ordered(
                    subs@[t]@,
                ),
            forall|t1: int, t2: int|
                0 <= t1 < t2 < subs@.len() ==> subs@[t1]@.last().1 < subs@[t2]@[0].0,
            p > 0 ==> subs@.last()@.last().1 == chunk[p - 1] && subs@[0]@[0].0 == chunk[0],
            forall|c: u32|
                (exists|t: int|
                    0 <= t < subs@.len() && in_ranges((#[trigger] subs@[t])@, c)) <==> chunk.take(
                    p as int,
                ).contains(c),
        decreases m - p,
    {
        let sub_key = chunk_set.codes[p] - chunk_set.codes[p] % 0x100;
        let mut q: usize = p + 1;
        while q < m && chunk_set.codes[q] - chunk_set.codes[q] % 0x100 == sub_key
            invariant
                p < q <= m,
            decreases m - q,
        {
            q = q + 1;
        }
        let sub_set = CodePointSet { codes: crate::int_ranges::subvec(&chunk_set.codes, p, q) };
        let ghost sub = sub_set.codes@;
        proof {
            assert(sub == chunk.subrange(p as int, q as int));
            assert forall|a: int, b: int| 0 <= a < b < sub.len() implies sub[a] < sub[b] by {
                assert(sub[a] == chunk[p + a]);
                assert(sub[b] == chunk[p + b]);
            }
            assert(sub_set.wf());
            assert(sub[0] == chunk[p as int]);
            assert(sub.last() == chunk[q - 1]);
        }
        let ranges = collect_int_ranges(&sub_set);
        proof {
            lemma_coalesced_correct(sub);
            assert(ranges@.len() >= 1);
            assert(ranges@[0].0 == chunk[p as int]);
            assert(ranges@.last().1 == chunk[q - 1]);
        }
        let ghost prev_subs = subs@;
        subs.push(ranges);
        proof {
            assert forall|t1: int, t2: int|
                0 <= t1 < t2 < subs@.len() implies subs@[t1]@.last().1 < subs@[t2]@[0].0 by {
                if t2 == subs@.len() - 1 && p > 0 {
                    if t1 < prev_subs.len() - 1 {
                        assert(prev_subs[t1]@.last().1 < prev_subs[prev_subs.len() - 1]@[0].0);
                        lemma_ranges_span(prev_subs[prev_subs.len() - 1]@);
                    }
                    assert(subs@[t1]@.last().1 <= chunk[p - 1]);
                    assert(chunk[p - 1] < chunk[p as int]);
                }
            }
            assert forall|c: u32|
                (exists|t: int|
                    0 <= t < subs@.len() && in_ranges((#[trigger] subs@[t])@, c)) <==> chunk.take(
                    q as int,
                ).contains(c) by {
                lemma_take_extend(chunk, p as int, q as int, c);
                if exists|t: int| 0 <= t < subs@.len() && in_ranges((#[trigger] subs@[t])@, c) {
                    let t = choose|t: int|
                        0 <= t < subs@.len() && in_ranges((#[trigger] subs@[t])@, c);
                    if t < prev_subs.len() {
                        assert(in_ranges(prev_subs[t]@, c));
                        assert(chunk.take(p as int).contains(c));
                    } else {
                        assert(in_ranges(ranges@, c));
                        assert(sub.contains(c));
                    }
                }
                if chunk.take(p as int).contains(c) {
                    let t = choose|t: int|
                        0 <= t < prev_subs.len() && in_ranges((#[trigger] prev_subs[t])@, c);
                    assert(in_ranges((subs@[t])@, c));
                }
                if sub.contains(c) {
                    assert(in_ranges(ranges@, c));
                    assert(in_ranges((subs@[subs@.len() - 1])@, c));
                }
            }
        }
        p = q;
    }
    let b = ChunkTests::Guarded(last, subs);
    proof {
        assert(b.wf());
        assert forall|c: u32| b.contains(c) <==> chunk.contains(c) by {
            assert(chunk.take(m as int) =~= chunk);
        }
    }
    b
}

/// Build the chunked membership decision over the keys of the
/// unconditional special uppercase mapping: reject anything outside the
/// smallest enclosing range, partition the keys into 0x1000-aligned
/// chunks, test a chunk of at most 8 members directly, and subdivide a
/// denser chunk into 0x100-aligned sub-chunks wrapped in one guard.
#[verifier::loop_isolation(false)]
#[verifier::rlimit(100)]
pub fn generate_changes_when_upper_cased_special_casing_fun(map: &SpecialCaseMap) -> (d:
    ChunkedPredicate)
    requires
        map.wf(),
        map.entries@.len() > 0,
    ensures
        d.wf(),
        forall|c: u32| d.contains(c) <==> special_map_has_code(map.entries@, c),
{
    let entries = &map.entries;
    let mut codes: Vec<u32> = Vec::new();
    let mut e: usize = 0;
    while e < entries.len()
        invariant
            e <= entries@.len(),
            codes@.len() == e,
            forall|t: int| 0 <= t < e ==> codes@[t] == (#[trigger] entries@[t]).0,
        decreases entries@.len() - e,
    {
        let (code, _) = &entries[e];
        codes.push(*code);
        e = e + 1;
    }
    proof {
        assert forall|a: int, b: int| 0 <= a < b < codes@.len() implies codes@[a] < codes@[b] by {
            assert(codes@[a] == entries@[a].0);
            assert(codes@[b] == entries@[b].0);
        }
        assert(sorted_strict(codes@));
        assert forall|t: int| 0 <= t < codes@.len() implies #[trigger] codes@[t] <= MAX_BMP by {
            assert(codes@[t] == entries@[t].0);
        }
    }
    let n = codes.len();
    let lowest = codes[0];
    let highest = codes[n - 1];
    let mut chunks: Vec<ChunkTests> = Vec::new();
    let mut i: usize = 0;
    while i < n
        invariant
            i <= n,
            i < n ==> chunks@.len() == 0 || chunks@.last().spec_max() < codes@[i as int],
            forall|k: int| 0 <= k < chunks@.len() ==> (#[trigger] chunks@[k]).wf(),
            forall|k1: int, k2: int|
                0 <= k1 < k2 < chunks@.len() ==> chunks@[k1].spec_max() < chunks@[k2].spec_min(),
            (chunks@.len() >= 1) <==> (i > 0),
            i > 0 ==> chunks@[0].spec_min() == codes@[0] && chunks@.last().spec_max() == codes@[i
                - 1],
            forall|c: u32| blocks_contain(chunks@, c) <==> codes@.take(i as int).contains(c),
        decreases n - i,
    {
        let chunk_key = codes[i] - codes[i] % 0x1000;
        let mut j: usize = i + 1;
        while j < n && codes[j] - codes[j] % 0x1000 == chunk_key
            invariant
                i < j <= n,
            decreases n - j,
        {
            j = j + 1;
        }
        let chunk_set = CodePointSet { codes: crate::int_ranges::subvec(&codes, i, j) };
        let ghost chunk = chunk_set.codes@;
        proof {
            assert(chunk == codes@.subrange(i as int, j as int));
            assert(chunk.len() == j - i >= 1);
            assert forall|a: int, b: int| 0 <= a < b < chunk.len() implies chunk[a] < chunk[b] by {
                assert(chunk[a] == codes@[i + a]);
                assert(chunk[b] == codes@[i + b]);
            }
            assert(chunk_set.wf());
            assert(chunk[0] == codes@[i as int]);
            assert(chunk.last() == codes@[j - 1]);
        }
        let block: ChunkTests;
        if j - i <= 8 {
            block = build_direct_block(&chunk_set);
        } else {
            block = build_guarded_block(&chunk_set);
        }
        let ghost prev_chunks = chunks@;
        chunks.push(block);
        proof {
            assert forall|c: u32| blocks_contain(chunks@, c) <==> codes@.take(
                j as int,
            ).contains(c) by {
                lemma_take_extend(codes@, i as int, j as int, c);
                if blocks_contain(chunks@, c) {
                    let k = choose|k: int| 0 <= k < chunks@.len() && (#[trigger] chunks@[k]).contains(c);
                    if k < prev_chunks.len() {
                        assert(prev_chunks[k].contains(c));
                        assert(blocks_contain(prev_chunks, c));
                    } else {
                        assert(block.contains(c));
                        assert(chunk.contains(c));
                        assert(codes@.subrange(i as int, j as int).contains(c));
                    }
                }
                if blocks_contain(prev_chunks, c) {
                    let k = choose|k: int|
                        0 <= k < prev_chunks.len() && (#[trigger] prev_chunks[k]).contains(c);
                    assert(chunks@[k].contains(c));
                    assert(blocks_contain(chunks@, c));
                }
                if codes@.subrange(i as int, j as int).contains(c) {
                    assert(chunk.contains(c));
                    assert(chunks@[chunks@.len() - 1].contains(c));
                    assert(blocks_contain(chunks@, c));
                }
            }
            assert forall|k1: int, k2: int|
                0 <= k1 < k2 < chunks@.len() implies chunks@[k1].spec_max()
                < chunks@[k2].spec_min() by {
                if k2 == chunks@.len() - 1 {
                    assert(chunks@[k2].spec_min() == codes@[i as int]);
                    if k1 < prev_chunks.len() - 1 {
                        assert(prev_chunks[k1].spec_max() < prev_chunks[prev_chunks.len()
                            - 1].spec_min());
                        lemma_block_minmax(&prev_chunks[prev_chunks.len() - 1]);
                    }
                    assert(chunks@[k1].spec_max() <= codes@[i - 1]);
                }
            }
            if j < n {
                assert(chunks@.last().spec_max() == codes@[j - 1] < codes@[j as int]);
            }
        }
        i = j;
    }
    let ghost gchunks = chunks@;
    let d = ChunkedPredicate { lowest, highest, chunks };
    proof {
        assert(codes@.take(n as int) =~= codes@);
        assert forall|c: u32| d.contains(c) <==> special_map_has_code(map.entries@, c) by {
            assert(d.chunks@ == gchunks);
            assert(d.contains(c) == blocks_contain(gchunks, c));
            assert(blocks_contain(gchunks, c) <==> codes@.take(n as int).contains(c));
            if codes@.contains(c) {
                let t = choose|t: int| 0 <= t < codes@.len() && codes@[t] == c;
                assert(entries@[t].0 == c);
                assert(special_map_has_code(entries@, c));
            }
            if special_map_has_code(entries@, c) {
                let t = choose|t: int| 0 <= t < entries@.len() && (#[trigger] entries@[t]).0 == c;
                assert(codes@[t] == c);
                assert(codes@.contains(c));
            }
        }
    }
    d
}

/// Given a code point that the special-casing predicate holds of, return
/// the number of code points that constitute its uppercased form.
pub fn length_upper_case_special_casing(map: &SpecialCaseMap, code: u16) -> (n: usize)
    requires
        map.wf(),
        special_map_has_code(map.entries@, code as u32),
    ensures
        n == replacement_of(map.entries@, code as u32).len(),
{
    let mut i: usize = 0;
    while i < map.entries.len()
        invariant
            map.wf(),
            special_map_has_code(map.entries@, code as u32),
            i <= map.entries@.len(),
            forall|t: int| 0 <= t < i ==> (#[trigger] map.entries@[t]).0 != code as u32,
        decreases map.entries@.len() - i,
    {
        let (key, reps) = &map.entries[i];
        if *key == code as u32 {
            proof {
                lemma_replacement_at(map.entries@, i as int);
            }
            return reps.len();
        }
        i = i + 1;
    }
    proof {
        let t = choose|t: int|
            0 <= t < map.entries@.len() && (#[trigger] map.entries@[t]).0 == code as u32;
    }
    unreached()
}

/// Given a code point that the special-casing predicate holds of, write
/// the code points that constitute its uppercased form to
/// `elements[*index]` onward, incrementing `*index` by the number of code
/// units written.  The destination must already have room for them at that
/// offset, as reported by the paired length query; everything outside the
/// written span is left unchanged.
#[verifier::loop_isolation(false)]
pub fn append_upper_case_special_casing(
    map: &SpecialCaseMap,
    code: u16,
    elements: &mut Vec<u16>,
    index: &mut usize,
) -> (found: usize)
    requires
        map.wf(),
        special_map_has_code(map.entries@, code as u32),
        *old(index) + replacement_of(map.entries@, code as u32).len() <= old(elements)@.len(),
    ensures
        final(elements)@.len() == old(elements)@.len(),
        *final(index) == *old(index) + replacement_of(map.entries@, code as u32).len(),
        forall|t: int|
            #![trigger replacement_of(map.entries@, code as u32)[t]]
            0 <= t < replacement_of(map.entries@, code as u32).len()
                ==> final(elements)@[*old(index) + t]
                == replacement_of(map.entries@, code as u32)[t] as u16,
        forall|t: int|
            #![trigger final(elements)@[t]]
            0 <= t < old(elements)@.len() && !(*old(index) <= t < *final(index))
                ==> final(elements)@[t] == old(elements)@[t],
{
    let mut i: usize = 0;
    while i < map.entries.len()
        invariant
            i <= map.entries@.len(),
            forall|t: int| 0 <= t < i ==> (#[trigger] map.entries@[t]).0 != code as u32,
            elements@ == old(elements)@,
            *index == *old(index),
        decreases map.entries@.len() - i,
    {
        let (key, reps) = &map.entries[i];
        if *key == code as u32 {
            proof {
                lemma_replacement_at(map.entries@, i as int);
            }
            let ghost replacement = replacement_of(map.entries@, code as u32);
            let cap = elements.len();
            let mut t: usize = 0;
            while t < reps.len()
                invariant
                    t <= reps@.len(),
                    reps@ == replacement,
                    cap == elements@.len(),
                    *index + reps@.len() <= cap,
                    elements@.len() == old(elements)@.len(),
                    *index == *old(index),
                    forall|s: int|
                        0 <= s < t ==> elements@[*index + s] == (#[trigger] reps@[s]) as u16,
                    forall|s: int|
                        0 <= s < elements@.len() && !(*index <= s < *index + t) ==> elements@[s]
                            == old(elements)@[s],
                decreases reps@.len() - t,
            {
                let unit = reps[t];
                elements.set(*index + t, #[verifier::truncate] (unit as u16));
                proof {
                    assert(reps@[t as int] <= MAX_BMP);
                }
                t = t + 1;
            }
            *index = *index + reps.len();
            return i;
        }
        i = i + 1;
    }
    proof {
        let t = choose|t: int|
            0 <= t < map.entries@.len() && (#[trigger] map.entries@[t]).0 == code as u32;
    }
    unreached()
}

/// The compiled special-casing functions: the chunked membership decision
/// together with the mapping it was generated from.
pub struct SpecialCasingFunctions {
    /// The chunked decision over the mapping's keys.
    pub decision: ChunkedPredicate,
    /// The unconditional special uppercase mapping itself.
    pub map: SpecialCaseMap,
}

impl SpecialCasingFunctions {
    /// The decision decides exactly membership among the mapping's keys.
    pub open spec fn wf(&self) -> bool {
        &&& self.map.wf()
        &&& self.decision.wf()
        &&& forall|c: u32|
            self.decision.contains(c) <==> special_map_has_code(self.map.entries@, c)
    }

    /// Given a code point, return `true` iff its uppercased form consists
    /// of multiple code points.  Most code points uppercase to a single
    /// code point; a relative few expand to more than one.
    pub fn changes_when_upper_cased_special_casing(&self, code: u16) -> (r: bool)
        requires
            self.wf(),
        ensures
            r == special_map_has_code(self.map.entries@, code as u32),
    {
        self.decision.evaluate(code as u32)
    }

    /// The number of code points of the uppercased form of `code`, which
    /// must satisfy the special-casing predicate.
    pub fn length_upper_case_special_casing(&self, code: u16) -> (n: usize)
        requires
            self.wf(),
            special_map_has_code(self.map.entries@, code as u32),
        ensures
            n == replacement_of(self.map.entries@, code as u32).len(),
    {
        length_upper_case_special_casing(&self.map, code)
    }

    /// Write the uppercased form of `code`, which must satisfy the
    /// special-casing predicate, to `elements[*index]` onward, advancing
    /// `*index` by the number of code units written.
    pub fn append_upper_case_special_casing(
        &self,
        code: u16,
        elements: &mut Vec<u16>,
        index: &mut usize,
    )
        requires
            self.wf(),
            special_map_has_code(self.map.entries@, code as u32),
            *old(index) + replacement_of(self.map.entries@, code as u32).len() <= old(
                elements,
            )@.len(),
        ensures
            final(elements)@.len() == old(elements)@.len(),
            *final(index) == *old(index) + replacement_of(self.map.entries@, code as u32).len(),
            forall|t: int|
                #![trigger replacement_of(self.map.entries@, code as u32)[t]]
                0 <= t < replacement_of(self.map.entries@, code as u32).len()
                    ==> final(elements)@[*old(index) + t]
                    == replacement_of(self.map.entries@, code as u32)[t] as u16,
            forall|t: int|
                #![trigger final(elements)@[t]]
                0 <= t < old(elements)@.len() && !(*old(index) <= t < *final(index))
                    ==> final(elements)@[t] == old(elements)@[t],
    {
        append_upper_case_special_casing(&self.map, code, elements, index);
    }
}

/// Compile the special-casing functions from the unconditional uppercase
/// mapping, which must not be empty — an empty mapping is a fatal input
/// error, there being nothing to generate.
pub fn generate_special_casing_functions(unconditional_toupper: SpecialCaseMap) -> (r:
    SpecialCasingFunctions)
    requires
        unconditional_toupper.wf(),
        unconditional_toupper.entries@.len() > 0,
    ensures
        r.wf(),
        r.map == unconditional_toupper,
{
    let decision = generate_changes_when_upper_cased_special_casing_fun(&unconditional_toupper);
    SpecialCasingFunctions { decision, map: unconditional_toupper }
}

} // verus!
