//! Coalescing of sorted code-point sets into maximal contiguous ranges.

use vstd::prelude::*;

verus! {

/// A non-empty integer range from start to end, inclusive.  May consist of
/// only a single code point.
#[derive(Clone, Copy, Debug, PartialEq, Eq, Structural)]
pub struct IntRange(pub u32, pub u32);

/// Holds iff `s` is strictly increasing, so its elements are unique and
/// sorted.
pub open spec fn sorted_strict(s: Seq<u32>) -> bool {
    forall|i: int, j: int| 0 <= i < j < s.len() ==> s[i] < s[j]
}

/// A set of unique code points, kept as a strictly increasing vector.
pub struct CodePointSet {
    /// The member code points, strictly increasing.
    pub codes: Vec<u32>,
}

impl CodePointSet {
    /// The set is sorted, duplicate-free and within the Unicode code space.
    pub open spec fn wf(&self) -> bool {
        &&& sorted_strict(self.codes@)
        &&& forall|i: int| 0 <= i < self.codes@.len() ==> self.codes@[i] <= crate::MAX_CODE_POINT
    }

    /// Whether `c` is a member of the set.
    pub open spec fn spec_contains(&self, c: u32) -> bool {
        self.codes@.contains(c)
    }

    /// Build a set from a vector of code points, which must already be
    /// strictly increasing and within the Unicode code space; otherwise the
    /// input is rejected.
    pub fn try_from_codes(codes: Vec<u32>) -> (r: Option<CodePointSet>)
        ensures
            match r {
                Some(s) => s.codes@ == codes@ && s.wf(),
                None => !(sorted_strict(codes@) && forall|i: int|
                    0 <= i < codes@.len() ==> codes@[i] <= crate::MAX_CODE_POINT),
            },
    {
        let mut i: usize = 0;
        while i < codes.len()
            invariant
                i <= codes@.len(),
                forall|k: int, l: int| 0 <= k < l < i ==> codes@[k] < codes@[l],
                forall|k: int| 0 <= k < i ==> codes@[k] <= crate::MAX_CODE_POINT,
            decreases codes@.len() - i,
        {
            if codes[i] > crate::MAX_CODE_POINT {
                return None;
            }
            if i > 0 && codes[i - 1] >= codes[i] {
                assert(!sorted_strict(codes@));
                return None;
            }
            i = i + 1;
        }
        Some(CodePointSet { codes })
    }
}

/// The sequence of maximal contiguous ranges covering exactly the elements
/// of a strictly increasing sequence of code points.
pub open spec fn coalesced(s: Seq<u32>) -> Seq<IntRange>
    decreases s.len(),
{
    if s.len() == 0 {
        Seq::empty()
    } else {
        let rest = coalesced(s.drop_first());
        if rest.len() > 0 && s[0] + 1 == rest[0].0 {
            seq![IntRange(s[0], rest[0].1)] + rest.drop_first()
        } else {
            seq![IntRange(s[0], s[0])] + rest
        }
    }
}

/// Whether `c` lies inside one of the ranges.
pub open spec fn in_ranges(rs: Seq<IntRange>, c: u32) -> bool {
    exists|k: int| 0 <= k < rs.len() && (#[trigger] rs[k]).0 <= c <= rs[k].1
}

/// Every range is non-empty, and the ranges are sorted, pairwise disjoint
/// and maximal: between two ranges there is always a gap of at least one
/// absent code point, so no two of them could be merged.
pub open spec fn ranges_ordered(rs: Seq<IntRange>) -> bool {
    &&& forall|k: int| 0 <= k < rs.len() ==> (#[trigger] rs[k]).0 <= rs[k].1
    &&& forall|k1: int, k2: int| 0 <= k1 < k2 < rs.len() ==> rs[k1].1 + 1 < rs[k2].0
}

proof fn lemma_coalesced_first(s: Seq<u32>)
    requires
        s.len() > 0,
    ensures
        coalesced(s).len() > 0,
        coalesced(s)[0].0 == s[0],
{
}

/// Coalescing law: over a strictly increasing sequence, the coalesced
/// ranges are sorted, pairwise non-overlapping and maximal — no two of them
/// could be merged, so no cover by fewer ranges exists — and their union is
/// exactly the set of the sequence's elements.  The first range starts at
/// the least element and the last range ends at the greatest.
pub proof fn lemma_coalesced_correct(s: Seq<u32>)
    requires
        sorted_strict(s),
    ensures
        ranges_ordered(coalesced(s)),
        forall|c: u32| in_ranges(coalesced(s), c) <==> s.contains(c),
        coalesced(s).len() == 0 <==> s.len() == 0,
        s.len() > 0 ==> coalesced(s)[0].0 == s[0] && coalesced(s).last().1 == s.last(),
    decreases s.len(),
{
    let rs = coalesced(s);
    if s.len() == 0 {
        assert forall|c: u32| in_ranges(rs, c) <==> s.contains(c) by {
            assert(!in_ranges(rs, c));
            assert(!s.contains(c));
        }
    } else {
        let t = s.drop_first();
        assert(sorted_strict(t)) by {
            assert(forall|i: int, j: int| 0 <= i < j < t.len() ==> t[i] == s[i + 1] && t[j] == s[j + 1]);
        }
        lemma_coalesced_correct(t);
        let rest = coalesced(t);
        assert forall|c: u32| s.contains(c) <==> (c == s[0] || t.contains(c)) by {
            if s.contains(c) {
                let i = choose|i: int| 0 <= i < s.len() && s[i] == c;
                if i > 0 {
                    assert(t[i - 1] == c);
                    assert(t.contains(c));
                }
            }
            if t.contains(c) {
                let i = choose|i: int| 0 <= i < t.len() && t[i] == c;
                assert(s[i + 1] == c);
                assert(s.contains(c));
            }
            if c == s[0] {
                assert(s.contains(c));
            }
        }
        if rest.len() > 0 && s[0] + 1 == rest[0].0 {
            assert(rs == seq![IntRange(s[0], rest[0].1)] + rest.drop_first());
            assert(rs.len() == rest.len());
            assert(rs[0] == IntRange(s[0], rest[0].1));
            assert forall|k: int| 1 <= k < rs.len() implies rs[k] == rest[k] by {
                assert(rs[k] == rest.drop_first()[k - 1]);
            }
            assert forall|k: int| 0 <= k < rs.len() implies (#[trigger] rs[k]).0 <= rs[k].1 by {
                if k == 0 {
                    assert(rest[0].0 <= rest[0].1);
                } else {
                    assert(rs[k] == rest[k]);
                    assert(rest[k].0 <= rest[k].1);
                }
            }
            assert forall|k1: int, k2: int| 0 <= k1 < k2 < rs.len() implies rs[k1].1 + 1 < rs[k2].0 by {
                assert(rs[k2] == rest[k2]);
                if k1 == 0 {
                    assert(rest[0].1 + 1 < rest[k2].0);
                } else {
                    assert(rs[k1] == rest[k1]);
                    assert(rest[k1].1 + 1 < rest[k2].0);
                }
            }
            assert forall|c: u32| in_ranges(rs, c) <==> s.contains(c) by {
                if in_ranges(rs, c) {
                    let k = choose|k: int| 0 <= k < rs.len() && (#[trigger] rs[k]).0 <= c <= rs[k].1;
                    if k == 0 {
                        if c != s[0] {
                            assert(rest[0].0 <= c <= rest[0].1);
                            assert(in_ranges(rest, c));
                            assert(t.contains(c));
                        }
                    } else {
                        assert(rs[k] == rest[k]);
                        assert(in_ranges(rest, c));
                        assert(t.contains(c));
                    }
                    assert(s.contains(c));
                }
                if s.contains(c) {
                    if c == s[0] {
                        assert(rs[0].0 <= c <= rs[0].1);
                        assert(in_ranges(rs, c));
                    } else {
                        assert(t.contains(c));
                        assert(in_ranges(rest, c));
                        let k = choose|k: int| 0 <= k < rest.len() && (#[trigger] rest[k]).0 <= c <= rest[k].1;
                        if k == 0 {
                            assert(rs[0].0 <= c <= rs[0].1);
                        } else {
                            assert(rs[k] == rest[k]);
                            assert(rs[k].0 <= c <= rs[k].1);
                        }
                        assert(in_ranges(rs, c));
                    }
                }
            }
            // first and last
            assert(rs[0].0 == s[0]);
            if rest.len() == 1 {
                assert(rs.last() == rs[0]);
                assert(rest.last() == rest[0]);
                assert(t.last() == s.last());
            } else {
                assert(rs.last() == rest[rest.len() - 1]);
                assert(rest.last().1 == t.last());
                assert(t.last() == s.last());
            }
        } else {
            assert(rs == seq![IntRange(s[0], s[0])] + rest);
            assert(rs.len() == 1 + rest.len());
            assert(rs[0] == IntRange(s[0], s[0]));
            assert forall|k: int| 1 <= k < rs.len() implies rs[k] == rest[k - 1] by {}
            if rest.len() > 0 {
                lemma_coalesced_first(t);
                assert(rest[0].0 == t[0]);
                assert(t[0] == s[1]);
                assert(s[0] < s[1]);
                assert(s[0] + 1 < rest[0].0);
            }
            assert forall|k: int| 0 <= k < rs.len() implies (#[trigger] rs[k]).0 <= rs[k].1 by {
                if k > 0 {
                    assert(rs[k] == rest[k - 1]);
                    assert(rest[k - 1].0 <= rest[k - 1].1);
                }
            }
            assert forall|k1: int, k2: int| 0 <= k1 < k2 < rs.len() implies rs[k1].1 + 1 < rs[k2].0 by {
                assert(rs[k2] == rest[k2 - 1]);
                if k1 == 0 {
                    if k2 == 1 {
                        assert(s[0] + 1 < rest[0].0);
                    } else {
                        assert(rest[0].1 + 1 < rest[k2 - 1].0);
                        assert(rest[0].0 <= rest[0].1);
                        assert(s[0] + 1 < rest[k2 - 1].0);
                    }
                } else {
                    assert(rs[k1] == rest[k1 - 1]);
                    assert(rest[k1 - 1].1 + 1 < rest[k2 - 1].0);
                }
            }
            assert forall|c: u32| in_ranges(rs, c) <==> s.contains(c) by {
                if in_ranges(rs, c) {
                    let k = choose|k: int| 0 <= k < rs.len() && (#[trigger] rs[k]).0 <= c <= rs[k].1;
                    if k == 0 {
                        assert(c == s[0]);
                    } else {
                        assert(rs[k] == rest[k - 1]);
                        assert(in_ranges(rest, c));
                        assert(t.contains(c));
                    }
                    assert(s.contains(c));
                }
                if s.contains(c) {
                    if c == s[0] {
                        assert(rs[0].0 <= c <= rs[0].1);
                        assert(in_ranges(rs, c));
                    } else {
                        assert(t.contains(c));
                        assert(in_ranges(rest, c));
                        let k = choose|k: int| 0 <= k < rest.len() && (#[trigger] rest[k]).0 <= c <= rest[k].1;
                        assert(rs[k + 1] == rest[k]);
                        assert(rs[k + 1].0 <= c <= rs[k + 1].1);
                        assert(in_ranges(rs, c));
                    }
                }
            }
            // first and last
            if rest.len() == 0 {
                assert(s.len() == 1);
                assert(rs.last() == rs[0]);
            } else {
                assert(rs.last() == rest[rest.len() - 1]);
                assert(rest.last().1 == t.last());
                assert(t.last() == s.last());
            }
        }
    }
}

/// The first coalesced range of a sequence whose initial `k` elements form a
/// maximal consecutive run covers exactly those `k` elements, and the rest of
/// the ranges coalesce the rest of the sequence.
proof fn lemma_coalesced_first_run(s: Seq<u32>, k: int)
    requires
        1 <= k <= s.len(),
        forall|i: int| #![trigger s[i], s[i + 1]] 0 <= i < k - 1 ==> s[i] + 1 == s[i + 1],
        k < s.len() ==> s[k - 1] + 1 != s[k],
    ensures
        coalesced(s).len() > 0,
        coalesced(s)[0] == IntRange(s[0], s[k - 1]),
        coalesced(s).drop_first() == coalesced(s.skip(k)),
    decreases k,
{
    let t = s.drop_first();
    let rest = coalesced(t);
    assert(t == s.skip(1));
    if k == 1 {
        if s.len() == 1 {
            assert(coalesced(s) == seq![IntRange(s[0], s[0])] + rest);
            assert(coalesced(s).drop_first() =~= rest);
            assert(s.skip(1).len() == 0);
        } else {
            lemma_coalesced_first(t);
            assert(rest[0].0 == t[0]);
            assert(t[0] == s[1]);
            assert(s[0] + 1 != s[1]);
            assert(coalesced(s) == seq![IntRange(s[0], s[0])] + rest);
            assert(coalesced(s).drop_first() =~= rest);
        }
    } else {
        assert(s[0] + 1 == s[1]);
        assert forall|i: int| #![trigger t[i], t[i + 1]] 0 <= i < k - 2 implies t[i] + 1 == t[i + 1] by {
            assert(t[i] == s[i + 1]);
            assert(t[i + 1] == s[i + 2]);
            assert(s[i + 1] + 1 == s[i + 2]);
        }
        assert(k - 1 < t.len() ==> t[k - 2] + 1 != t[k - 1]) by {
            if k - 1 < t.len() {
                assert(t[k - 2] == s[k - 1]);
                assert(t[k - 1] == s[k]);
            }
        }
        lemma_coalesced_first_run(t, k - 1);
        assert(rest[0] == IntRange(t[0], t[k - 2]));
        assert(t[0] == s[1]);
        assert(t[k - 2] == s[k - 1]);
        assert(coalesced(s) == seq![IntRange(s[0], rest[0].1)] + rest.drop_first());
        assert(coalesced(s)[0] == IntRange(s[0], s[k - 1]));
        assert(coalesced(s).drop_first() =~= rest.drop_first());
        assert(t.skip(k - 1) =~= s.skip(k));
        assert(rest.drop_first() == coalesced(t.skip(k - 1)));
    }
}

/// Copy the elements of `v` at positions `i` up to (but excluding) `j` into
/// a fresh vector.
pub(crate) fn subvec(v: &Vec<u32>, i: usize, j: usize) -> (r: Vec<u32>)
    requires
        i <= j <= v@.len(),
    ensures
        r@ == v@.subrange(i as int, j as int),
{
    let mut r: Vec<u32> = Vec::new();
    let mut k: usize = i;
    while k < j
        invariant
            i <= k <= j <= v@.len(),
            r@ == v@.subrange(i as int, k as int),
        decreases j - k,
    {
        r.push(v[k]);
        k = k + 1;
    }
    r
}

/// An iterator over non-overlapping integer ranges, exposed in sorted order.
///
/// The set's code points are walked once; a one-element resumption slot
/// carries the code point that terminated one range over into the call that
/// produces the next range, so the ranges can be consumed incrementally.
pub struct IntRanges {
    resume: Option<u32>,
    codes: Vec<u32>,
    pos: usize,
}

impl IntRanges {
    /// The walk is over a sorted set and the resumption slot, when occupied,
    /// holds exactly the last code point taken from it.
    pub closed spec fn wf(&self) -> bool {
        &&& sorted_strict(self.codes@)
        &&& self.pos <= self.codes@.len()
        &&& (self.resume is Some ==> self.pos >= 1 && self.resume == Some(self.codes@[self.pos - 1]))
    }

    /// The code points not yet folded into a returned range.
    pub closed spec fn remaining(&self) -> Seq<u32> {
        if self.resume is Some {
            self.codes@.skip(self.pos - 1)
        } else {
            self.codes@.skip(self.pos as int)
        }
    }

    fn new(code_points: &CodePointSet) -> (r: IntRanges)
        requires
            code_points.wf(),
        ensures
            r.wf(),
            r.remaining() == code_points.codes@,
    {
        let codes = subvec(&code_points.codes, 0, code_points.codes.len());
        assert(codes@ == code_points.codes@);
        let r = IntRanges { resume: None, codes, pos: 0 };
        assert(r.remaining() =~= code_points.codes@);
        r
    }

    /// Produce the next maximal contiguous range of the remaining code
    /// points, or `None` once they are exhausted.
    #[verifier::loop_isolation(false)]
    #[verifier::rlimit(50)]
    pub fn next(&mut self) -> (r: Option<IntRange>)
        requires
            old(self).wf(),
        ensures
            final(self).wf(),
            old(self).remaining().len() == 0 ==> r is None && final(self).remaining()
                == old(self).remaining(),
            old(self).remaining().len() > 0 ==> {
                &&& r == Some(coalesced(old(self).remaining())[0])
                &&& coalesced(final(self).remaining()) == coalesced(
                    old(self).remaining(),
                ).drop_first()
                &&& final(self).remaining().len() < old(self).remaining().len()
            },
    {
        let ghost rem = old(self).remaining();
        let start: u32 = match self.resume {
            Some(n) => {
                self.resume = None;
                n
            }
            None => {
                if self.pos == self.codes.len() {
                    assert(rem.len() == 0);
                    return None;
                }
                let c = self.codes[self.pos];
                self.pos = self.pos + 1;
                c
            }
        };
        let ghost base: int = self.pos - 1;
        let ghost codes0: Seq<u32> = self.codes@;
        proof {
            assert(rem =~= codes0.skip(base));
            assert(start == codes0[base]);
        }
        let mut curr: u32 = start;
        loop
            invariant
                self.codes@ == codes0,
                self.resume is None,
                base + 1 <= self.pos <= self.codes@.len(),
                curr == self.codes@[self.pos - 1],
                forall|i: int| #![trigger self.codes@[i], self.codes@[i + 1]] base <= i < self.pos - 1 ==> self.codes@[i] + 1 == self.codes@[i + 1],
            decreases self.codes@.len() - self.pos,
        {
            if self.pos == self.codes.len() {
                proof {
                    let k = self.pos - base;
                    assert forall|i: int| #![trigger rem[i], rem[i + 1]] 0 <= i < k - 1 implies rem[i] + 1 == rem[i + 1] by {
                        assert(rem[i] == self.codes@[base + i]);
                        assert(rem[i + 1] == self.codes@[base + i + 1]);
                    }
                    lemma_coalesced_first_run(rem, k);
                    assert(rem[0] == start);
                    assert(rem[k - 1] == curr);
                    assert(self.remaining() =~= rem.skip(k));
                }
                return Some(IntRange(start, curr));
            }
            let next_code = self.codes[self.pos];
            self.pos = self.pos + 1;
            if curr + 1 != next_code {
                self.resume = Some(next_code);
                proof {
                    let k = (self.pos - 1) - base;
                    assert forall|i: int| #![trigger rem[i], rem[i + 1]] 0 <= i < k - 1 implies rem[i] + 1 == rem[i + 1] by {
                        assert(rem[i] == self.codes@[base + i]);
                        assert(rem[i + 1] == self.codes@[base + i + 1]);
                    }
                    assert(rem[k - 1] == curr);
                    assert(rem[k] == next_code);
                    lemma_coalesced_first_run(rem, k);
                    assert(rem[0] == start);
                    assert(self.remaining() =~= rem.skip(k));
                }
                return Some(IntRange(start, curr));
            }
            curr = next_code;
        }
    }
}

/// Given a set of code points, return an `IntRanges` that sequentially
/// exposes all code points in the set as a series of `IntRange` ranges.
pub fn int_ranges(code_points: &CodePointSet) -> (r: IntRanges)
    requires
        code_points.wf(),
    ensures
        r.wf(),
        r.remaining() == code_points.codes@,
{
    IntRanges::new(code_points)
}

/// Coalesce a whole set at once into its vector of maximal ranges.
pub fn collect_int_ranges(code_points: &CodePointSet) -> (r: Vec<IntRange>)
    requires
        code_points.wf(),
    ensures
        r@ == coalesced(code_points.codes@),
{
    let mut it = int_ranges(code_points);
    let mut out: Vec<IntRange> = Vec::new();
    loop
        invariant
            it.wf(),
            out@ + coalesced(it.remaining()) == coalesced(code_points.codes@),
        ensures
            out@ == coalesced(code_points.codes@),
        decreases it.remaining().len(),
    {
        let ghost rem = it.remaining();
        let item = it.next();
        match item {
            None => {
                proof {
                    assert(coalesced(rem).len() == 0);
                    assert(out@ + coalesced(rem) =~= out@);
                }
                break;
            }
            Some(range) => {
                proof {
                    assert(seq![coalesced(rem)[0]] + coalesced(rem).drop_first() =~= coalesced(
                        rem,
                    ));
                    assert((out@ + seq![range]) + coalesced(it.remaining()) =~= out@ + coalesced(
                        rem,
                    ));
                }
                out.push(range);
            }
        }
    }
    out
}

} // verus!
