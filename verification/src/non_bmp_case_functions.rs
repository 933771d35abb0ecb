//! Case-mapping structures for non-BMP code points, compacted into ranges
//! of UTF-16 surrogate pairs sharing one lead unit and one trail delta.

use vstd::arithmetic::div_mod::{lemma_fundamental_div_mod, lemma_fundamental_div_mod_converse};
use vstd::prelude::*;

use crate::{MAX_CODE_POINT, NON_BMP_MIN};

verus! {

/// A casing operation, either uppercasing or lowercasing.
pub enum Casing {
    Upper,
    Lower,
}

impl Casing {
    /// Return "upper" or "lower" for this.
    pub fn to_string(&self) -> (r: &'static str)
        ensures
            self is Upper ==> r@ == "upper"@,
            self is Lower ==> r@ == "lower"@,
    {
        match self {
            Casing::Upper => "upper",
            Casing::Lower => "lower",
        }
    }
}

/// The UTF-16 lead surrogate unit of a non-BMP code point.
pub open spec fn utf16_lead(code: u32) -> u16
    recommends
        NON_BMP_MIN <= code <= MAX_CODE_POINT,
{
    (((code - NON_BMP_MIN) / 1024) + 0xD800) as u16
}

/// The UTF-16 trail surrogate unit of a non-BMP code point.
pub open spec fn utf16_trail(code: u32) -> u16
    recommends
        NON_BMP_MIN <= code <= MAX_CODE_POINT,
{
    (((code - NON_BMP_MIN) % 1024) + 0xDC00) as u16
}

/// The non-BMP code point denoted by a lead and trail surrogate pair.
pub open spec fn utf16_recompose(lead: u16, trail: u16) -> u32
    recommends
        0xD800 <= lead <= 0xDBFF,
        0xDC00 <= trail <= 0xDFFF,
{
    ((lead - 0xD800) * 1024 + (trail - 0xDC00) + NON_BMP_MIN) as u32
}

/// Decompose a code point into its UTF-16 representation.
pub fn utf16_encode(code: u32) -> (r: (u16, u16))
    requires
        NON_BMP_MIN <= code <= MAX_CODE_POINT,
    ensures
        r.0 == utf16_lead(code),
        r.1 == utf16_trail(code),
        0xD800 <= r.0 <= 0xDBFF,
        0xDC00 <= r.1 <= 0xDFFF,
{
    proof {
        lemma_fundamental_div_mod((code - NON_BMP_MIN) as int, 1024);
    }
    let lead = ((code - NON_BMP_MIN) / 1024) as u16 + 0xD800;
    let trail = ((code - NON_BMP_MIN) % 1024) as u16 + 0xDC00;
    (lead, trail)
}

/// Recombine a UTF-16 surrogate pair into the code point it denotes.
pub fn utf16_decode(lead: u16, trail: u16) -> (r: u32)
    requires
        0xD800 <= lead <= 0xDBFF,
        0xDC00 <= trail <= 0xDFFF,
    ensures
        r == utf16_recompose(lead, trail),
        NON_BMP_MIN <= r <= MAX_CODE_POINT,
{
    (lead as u32 - 0xD800) * 1024 + (trail as u32 - 0xDC00) + NON_BMP_MIN
}

/// Round-trip law: decomposing a non-BMP code point into its surrogate pair
/// and recombining the pair gives back the code point.
pub proof fn lemma_utf16_round_trip(code: u32)
    requires
        NON_BMP_MIN <= code <= MAX_CODE_POINT,
    ensures
        utf16_recompose(utf16_lead(code), utf16_trail(code)) == code,
        0xD800 <= utf16_lead(code) <= 0xDBFF,
        0xDC00 <= utf16_trail(code) <= 0xDFFF,
{
    lemma_fundamental_div_mod((code - NON_BMP_MIN) as int, 1024);
}

/// Stepping forward inside one lead unit's block of code points moves the
/// trail unit by the same amount and keeps the lead unit.
pub proof fn lemma_utf16_offset(start: u32, off: int)
    requires
        NON_BMP_MIN <= start,
        0 <= off,
        start + off <= MAX_CODE_POINT,
        utf16_trail(start) + off <= 0xDFFF,
    ensures
        utf16_lead((start + off) as u32) == utf16_lead(start),
        utf16_trail((start + off) as u32) == utf16_trail(start) + off,
{
    let a = (start - NON_BMP_MIN) as int;
    lemma_fundamental_div_mod(a, 1024);
    lemma_fundamental_div_mod_converse(a + off, 1024, a / 1024, a % 1024 + off);
}

/// Two non-BMP code points sharing their lead unit differ exactly as their
/// trail units do.
pub proof fn lemma_utf16_same_lead(c1: u32, c2: u32)
    requires
        NON_BMP_MIN <= c1 <= MAX_CODE_POINT,
        NON_BMP_MIN <= c2 <= MAX_CODE_POINT,
        utf16_lead(c1) == utf16_lead(c2),
    ensures
        c2 - c1 == utf16_trail(c2) - utf16_trail(c1),
{
    let a1 = (c1 - NON_BMP_MIN) as int;
    let a2 = (c2 - NON_BMP_MIN) as int;
    lemma_fundamental_div_mod(a1, 1024);
    lemma_fundamental_div_mod(a2, 1024);
    assert(a1 / 1024 < 1024 && a2 / 1024 < 1024);
    assert(a1 / 1024 == a2 / 1024);
}

/// An ordered 1:1 case mapping over non-BMP code points: each pair maps a
/// source code point to its case-transformed target.
pub struct CaseMap {
    /// The (source, target) pairs, strictly increasing by source.
    pub entries: Vec<(u32, u32)>,
}

impl CaseMap {
    /// Keys are strictly increasing and both sides are non-BMP code points.
    pub open spec fn wf(&self) -> bool {
        &&& forall|i: int, j: int|
            0 <= i < j < self.entries@.len() ==> self.entries@[i].0 < self.entries@[j].0
        &&& forall|i: int|
            0 <= i < self.entries@.len() ==> NON_BMP_MIN <= (#[trigger] self.entries@[i]).0
                <= MAX_CODE_POINT && NON_BMP_MIN <= self.entries@[i].1 <= MAX_CODE_POINT
    }

    /// In UTF-16, every mapped pair shares one lead unit: case mapping never
    /// changes the high bits of a non-BMP code point.  A violation is a
    /// fatal data-integrity error in the input.
    pub open spec fn leads_consistent(&self) -> bool {
        forall|i: int|
            0 <= i < self.entries@.len() ==> utf16_lead(
                (#[trigger] self.entries@[i]).0,
            ) == utf16_lead(self.entries@[i].1)
    }

    /// Check the lead-unit invariant of the whole map, so that a caller can
    /// fail loudly before any range is generated from inconsistent data.
    pub fn check_leads_consistent(&self) -> (r: bool)
        requires
            self.wf(),
        ensures
            r == self.leads_consistent(),
    {
        let mut i: usize = 0;
        while i < self.entries.len()
            invariant
                self.wf(),
                i <= self.entries@.len(),
                forall|k: int|
                    0 <= k < i ==> utf16_lead((#[trigger] self.entries@[k]).0) == utf16_lead(
                        self.entries@[k].1,
                    ),
            decreases self.entries@.len() - i,
        {
            let (code, mapped) = self.entries[i];
            let (lead, _trail) = utf16_encode(code);
            let (mapped_lead, _mapped_trail) = utf16_encode(mapped);
            if lead != mapped_lead {
                return false;
            }
            i = i + 1;
        }
        true
    }
}

/// Whether some entry of the mapping has `c` as its source code point.
pub open spec fn map_has_code(entries: Seq<(u32, u32)>, c: u32) -> bool {
    exists|i: int| 0 <= i < entries.len() && (#[trigger] entries[i]).0 == c
}

/// The target that the mapping assigns to source code point `c`.
pub open spec fn map_mapped(entries: Seq<(u32, u32)>, c: u32) -> u32
    recommends
        map_has_code(entries, c),
{
    entries[choose|i: int| 0 <= i < entries.len() && (#[trigger] entries[i]).0 == c].1
}

/// A representation of a non-BMP code point range beginning at `start` of
/// `length` code points (potentially 1 for a range of a single code point),
/// with each code point case-mapping by adding (with wrapping) `delta` to
/// its trail unit, where the UTF-16 decomposition of `start` is
/// `(lead, trail)`.
#[derive(Clone, Copy, Debug, PartialEq, Eq, Structural)]
pub struct CaseMappingRange {
    /// First code point of the range.
    pub start: u32,
    /// Number of consecutive code points in the range.
    pub length: u16,
    /// 16-bit wrapping difference from a covered trail unit to its mapping.
    pub delta: u16,
    /// Lead surrogate unit shared by the whole range.
    pub lead: u16,
    /// Trail surrogate unit of `start`.
    pub trail: u16,
}

/// Internal consistency of one range: it is non-empty, lies inside the
/// non-BMP space, its `lead`/`trail` fields are the decomposition of
/// `start`, and the whole run stays inside one lead unit's block, so that
/// consecutive code points have consecutive trail units.
pub open spec fn cmr_wf(r: CaseMappingRange) -> bool {
    &&& 1 <= r.length
    &&& NON_BMP_MIN <= r.start
    &&& r.start + r.length - 1 <= MAX_CODE_POINT
    &&& r.lead == utf16_lead(r.start)
    &&& r.trail == utf16_trail(r.start)
    &&& r.trail + r.length - 1 <= 0xDFFF
}

/// Whether the range covers code point `c`.
pub open spec fn cmr_covers(r: CaseMappingRange, c: u32) -> bool {
    r.start <= c < r.start + r.length
}

/// Each range is well formed, and the ranges are sorted and pairwise
/// disjoint in code-point space.
pub open spec fn cmr_ranges_wf(rs: Seq<CaseMappingRange>) -> bool {
    &&& forall|k: int| 0 <= k < rs.len() ==> cmr_wf(#[trigger] rs[k])
    &&& forall|k1: int, k2: int|
        0 <= k1 < k2 < rs.len() ==> rs[k1].start + rs[k1].length <= rs[k2].start
}

/// No two adjacent ranges could be merged: a merge would require contiguity
/// in code-point space together with an equal delta and an equal lead unit.
pub open spec fn cmr_ranges_maximal(rs: Seq<CaseMappingRange>) -> bool {
    forall|k: int|
        #![trigger rs[k], rs[k + 1]]
        0 <= k < rs.len() - 1 ==> !(rs[k].start + rs[k].length == rs[k + 1].start && rs[k].delta
            == rs[k + 1].delta && rs[k].lead == rs[k + 1].lead)
}

/// Whether some range of `rs` covers code point `c`.
pub open spec fn cmr_ranges_cover(rs: Seq<CaseMappingRange>, c: u32) -> bool {
    exists|k: int| 0 <= k < rs.len() && cmr_covers(#[trigger] rs[k], c)
}

/// The ranges encode exactly the case map: a code point is covered iff it
/// is a key of the map, and a covered code point's mapped trail unit is its
/// own trail unit plus the covering range's delta.
pub open spec fn cmr_ranges_represent(rs: Seq<CaseMappingRange>, entries: Seq<(u32, u32)>) -> bool {
    &&& forall|i: int|
        0 <= i < entries.len() ==> cmr_ranges_cover(rs, (#[trigger] entries[i]).0)
    &&& forall|k: int, c: u32|
        0 <= k < rs.len() && #[trigger] cmr_covers(rs[k], c) ==> map_has_code(entries, c)
            && utf16_trail(map_mapped(entries, c)) == utf16_trail(c).wrapping_add(rs[k].delta)
}

/// In a mapping with strictly increasing keys, the entry found for the key
/// of entry `i` is entry `i` itself.
proof fn lemma_map_mapped_at(entries: Seq<(u32, u32)>, i: int)
    requires
        forall|a: int, b: int| 0 <= a < b < entries.len() ==> entries[a].0 < entries[b].0,
        0 <= i < entries.len(),
    ensures
        map_has_code(entries, entries[i].0),
        map_mapped(entries, entries[i].0) == entries[i].1,
{
    assert(map_has_code(entries, entries[i].0));
    let j = choose|j: int| 0 <= j < entries.len() && (#[trigger] entries[j]).0 == entries[i].0;
    if j < i {
        assert(entries[j].0 < entries[i].0);
    } else if i < j {
        assert(entries[i].0 < entries[j].0);
    }
}

/// From the case mappings in `case_map`, return the list of maximal
/// `CaseMappingRange`s within it: entries contiguous in code-point space
/// that share one lead unit and one trail delta are merged into one range.
#[verifier::loop_isolation(false)]
#[verifier::rlimit(60)]
pub fn compute_conversion_ranges(case_map: &CaseMap) -> (r: Vec<CaseMappingRange>)
    requires
        case_map.wf(),
        case_map.leads_consistent(),
    ensures
        cmr_ranges_wf(r@),
        cmr_ranges_maximal(r@),
        cmr_ranges_represent(r@, case_map.entries@),
{
    let entries = &case_map.entries;
    let mut out: Vec<CaseMappingRange> = Vec::new();
    let mut i: usize = 0;
    while i < entries.len()
        invariant
            i <= entries@.len(),
            cmr_ranges_wf(out@),
            cmr_ranges_maximal(out@),
            forall|t: int| 0 <= t < i ==> cmr_ranges_cover(out@, (#[trigger] entries@[t]).0),
            forall|k: int, c: u32|
                0 <= k < out@.len() && #[trigger] cmr_covers(out@[k], c) ==> map_has_code(
                    entries@,
                    c,
                ) && utf16_trail(map_mapped(entries@, c)) == utf16_trail(c).wrapping_add(
                    out@[k].delta,
                ),
            i == 0 ==> out@.len() == 0,
            i > 0 ==> out@.len() > 0 && out@.last().start + out@.last().length == entries@[i
                - 1].0 + 1,
        decreases entries@.len() - i,
    {
        let (code, mapped) = entries[i];
        let (lead, trail) = utf16_encode(code);
        let (mapped_lead, mapped_trail) = utf16_encode(mapped);
        let delta = mapped_trail.wrapping_sub(trail);
        proof {
            assert(lead == mapped_lead);
            assert(trail.wrapping_add(delta) == mapped_trail) by (bit_vector)
                requires
                    delta == mapped_trail.wrapping_sub(trail),
            ;
            lemma_map_mapped_at(entries@, i as int);
        }
        let ghost prev = out@;
        let mut merged: bool = false;
        if out.len() > 0 {
            let idx = out.len() - 1;
            let last = out[idx];
            if last.start + (last.length as u32) == code && last.delta == delta && last.lead
                == lead {
                proof {
                    // The new code point extends the run: same lead, so its
                    // trail unit is the run's trail plus the run's length.
                    lemma_utf16_same_lead(last.start, code);
                    assert(trail == last.trail + last.length);
                }
                let updated = CaseMappingRange { length: last.length + 1, ..last };
                out.set(idx, updated);
                merged = true;
                proof {
                    assert(cmr_wf(updated));
                    assert forall|k: int, c: u32|
                        0 <= k < out@.len() && #[trigger] cmr_covers(out@[k], c) implies
                        map_has_code(entries@, c) && utf16_trail(map_mapped(entries@, c))
                            == utf16_trail(c).wrapping_add(out@[k].delta) by {
                        if k == idx {
                            if c == code {
                                assert(map_mapped(entries@, c) == mapped);
                            } else {
                                assert(cmr_covers(prev[k], c));
                            }
                        } else {
                            assert(out@[k] == prev[k]);
                            assert(cmr_covers(prev[k], c));
                        }
                    }
                    assert forall|t: int| 0 <= t < i + 1 implies cmr_ranges_cover(
                        out@,
                        (#[trigger] entries@[t]).0,
                    ) by {
                        if t < i {
                            let k = choose|k: int|
                                0 <= k < prev.len() && cmr_covers(#[trigger] prev[k], entries@[t].0);
                            if k == idx {
                                assert(cmr_covers(out@[idx as int], entries@[t].0));
                            } else {
                                assert(cmr_covers(out@[k], entries@[t].0));
                            }
                        } else {
                            assert(cmr_covers(out@[idx as int], code));
                        }
                    }
                }
            }
        }
        if !merged {
            let fresh = CaseMappingRange { start: code, length: 1, delta, lead, trail };
            proof {
                assert(cmr_wf(fresh));
                if out@.len() > 0 {
                    assert(out@.last().start + out@.last().length <= code);
                }
            }
            out.push(fresh);
            proof {
                assert forall|k: int, c: u32|
                    0 <= k < out@.len() && #[trigger] cmr_covers(out@[k], c) implies map_has_code(
                        entries@,
                        c,
                    ) && utf16_trail(map_mapped(entries@, c)) == utf16_trail(c).wrapping_add(
                        out@[k].delta,
                    ) by {
                    if k == out@.len() - 1 {
                        assert(c == code);
                        assert(map_mapped(entries@, c) == mapped);
                    } else {
                        assert(out@[k] == prev[k]);
                        assert(cmr_covers(prev[k], c));
                    }
                }
                assert forall|t: int| 0 <= t < i + 1 implies cmr_ranges_cover(
                    out@,
                    (#[trigger] entries@[t]).0,
                ) by {
                    if t < i {
                        let k = choose|k: int|
                            0 <= k < prev.len() && cmr_covers(#[trigger] prev[k], entries@[t].0);
                        assert(cmr_covers(out@[k], entries@[t].0));
                    } else {
                        assert(cmr_covers(out@[out@.len() - 1], code));
                    }
                }
            }
        }
        i = i + 1;
    }
    out
}

/// Whether a surrogate pair `(lead, trail)` falls inside the pair interval
/// that range `r` tests for.
pub open spec fn cmr_matches(r: CaseMappingRange, lead: u16, trail: u16) -> bool {
    lead == r.lead && r.trail <= trail <= r.trail + r.length - 1
}

/// Whether any range of `rs` tests true for the surrogate pair.
pub open spec fn cmr_any_match(rs: Seq<CaseMappingRange>, lead: u16, trail: u16) -> bool {
    exists|k: int| 0 <= k < rs.len() && cmr_matches(#[trigger] rs[k], lead, trail)
}

/// At most one range of a sorted, disjoint list can match a surrogate pair.
proof fn lemma_cmr_match_unique(
    rs: Seq<CaseMappingRange>,
    lead: u16,
    trail: u16,
    k1: int,
    k2: int,
)
    requires
        cmr_ranges_wf(rs),
        0 <= k1 <= k2 < rs.len(),
        cmr_matches(rs[k1], lead, trail),
        cmr_matches(rs[k2], lead, trail),
    ensures
        k1 == k2,
{
    if k1 == k2 {
        return;
    }
    let r1 = rs[k1];
    let r2 = rs[k2];
    assert(cmr_wf(r1) && cmr_wf(r2));
    let e1 = (r1.start + r1.length - 1) as u32;
    lemma_utf16_offset(r1.start, r1.length - 1);
    assert(utf16_trail(e1) == r1.trail + r1.length - 1);
    assert(utf16_lead(e1) == r1.lead);
    assert(r1.start + r1.length <= r2.start);
    lemma_utf16_same_lead(e1, r2.start);
    assert(r2.trail - utf16_trail(e1) == r2.start - e1);
    assert(r2.trail > r1.trail + r1.length - 1);
    assert(trail <= r1.trail + r1.length - 1);
    assert(r2.trail <= trail);
}

/// For a non-BMP code point whose UTF-16 decomposition consists of `lead`
/// and `trail`, return `true` iff the pair falls inside one of the ranges,
/// i.e. iff the cased form of the code point differs from the code point
/// itself.  For a pair outside every range the answer is `false`.
pub fn changes_when_cased_non_bmp(ranges: &Vec<CaseMappingRange>, lead: u16, trail: u16) -> (r:
    bool)
    requires
        forall|k: int| 0 <= k < ranges@.len() ==> cmr_wf(#[trigger] ranges@[k]),
    ensures
        r == cmr_any_match(ranges@, lead, trail),
{
    let mut k: usize = 0;
    while k < ranges.len()
        invariant
            k <= ranges@.len(),
            forall|k: int| 0 <= k < ranges@.len() ==> cmr_wf(#[trigger] ranges@[k]),
            forall|t: int| 0 <= t < k ==> !cmr_matches(#[trigger] ranges@[t], lead, trail),
        decreases ranges@.len() - k,
    {
        let rg = ranges[k];
        if lead == rg.lead && rg.trail <= trail && trail <= rg.trail + rg.length - 1 {
            assert(cmr_matches(ranges@[k as int], lead, trail));
            return true;
        }
        k = k + 1;
    }
    false
}

/// For a non-BMP code point whose UTF-16 decomposition consists of `lead`
/// and `trail`, return the UTF-16 trail unit of its cased form: the trail
/// unit shifted by the delta of the range covering the pair, or, for a pair
/// outside every range, the input `trail` unchanged (identity fallback).
pub fn to_case_non_bmp_trail(ranges: &Vec<CaseMappingRange>, lead: u16, trail: u16) -> (r: u16)
    requires
        cmr_ranges_wf(ranges@),
    ensures
        !cmr_any_match(ranges@, lead, trail) ==> r == trail,
        forall|k: int|
            0 <= k < ranges@.len() && cmr_matches(#[trigger] ranges@[k], lead, trail) ==> r
                == trail.wrapping_add(ranges@[k].delta),
{
    let mut k: usize = 0;
    while k < ranges.len()
        invariant
            k <= ranges@.len(),
            cmr_ranges_wf(ranges@),
            forall|t: int| 0 <= t < k ==> !cmr_matches(#[trigger] ranges@[t], lead, trail),
        decreases ranges@.len() - k,
    {
        let rg = ranges[k];
        if lead == rg.lead && rg.trail <= trail && trail <= rg.trail + rg.length - 1 {
            proof {
                assert(cmr_matches(ranges@[k as int], lead, trail));
                assert forall|k2: int|
                    0 <= k2 < ranges@.len() && cmr_matches(
                        #[trigger] ranges@[k2],
                        lead,
                        trail,
                    ) implies ranges@[k2].delta == ranges@[k as int].delta by {
                    if k2 < k as int {
                        lemma_cmr_match_unique(ranges@, lead, trail, k2, k as int);
                    } else {
                        lemma_cmr_match_unique(ranges@, lead, trail, k as int, k2);
                    }
                }
            }
            return trail.wrapping_add(rg.delta);
        }
        k = k + 1;
    }
    trail
}

/// A surrogate pair matches a well-formed range exactly when the code
/// point the pair denotes is covered by the range.
proof fn lemma_cmr_match_iff_covered(r: CaseMappingRange, c: u32)
    requires
        cmr_wf(r),
        NON_BMP_MIN <= c <= MAX_CODE_POINT,
    ensures
        cmr_matches(r, utf16_lead(c), utf16_trail(c)) == cmr_covers(r, c),
{
    if cmr_covers(r, c) {
        lemma_utf16_offset(r.start, c - r.start);
    }
    if cmr_matches(r, utf16_lead(c), utf16_trail(c)) {
        lemma_utf16_same_lead(r.start, c);
    }
}

/// Exactness of the generated pair tests against the case map they encode:
/// a non-BMP code point's surrogate pair matches some range iff the code
/// point is a key of the map, and the delta of every matching range moves
/// the code point's trail unit to its mapping's trail unit.
pub proof fn lemma_ranges_encode_map(
    rs: Seq<CaseMappingRange>,
    entries: Seq<(u32, u32)>,
    c: u32,
)
    requires
        cmr_ranges_wf(rs),
        cmr_ranges_represent(rs, entries),
        NON_BMP_MIN <= c <= MAX_CODE_POINT,
    ensures
        cmr_any_match(rs, utf16_lead(c), utf16_trail(c)) <==> map_has_code(entries, c),
        forall|k: int|
            0 <= k < rs.len() && cmr_matches(#[trigger] rs[k], utf16_lead(c), utf16_trail(c))
                ==> utf16_trail(c).wrapping_add(rs[k].delta) == utf16_trail(
                map_mapped(entries, c),
            ),
{
    assert forall|k: int|
        0 <= k < rs.len() implies cmr_matches(
        #[trigger] rs[k],
        utf16_lead(c),
        utf16_trail(c),
    ) == cmr_covers(rs[k], c) by {
        lemma_cmr_match_iff_covered(rs[k], c);
    }
    if map_has_code(entries, c) {
        let i = choose|i: int| 0 <= i < entries.len() && (#[trigger] entries[i]).0 == c;
        assert(cmr_ranges_cover(rs, entries[i].0));
    }
}

/// The compiled non-BMP case tests for both casing directions: each vector
/// holds the maximal surrogate-pair ranges of one simple case map.
pub struct NonBmpCaseFunctions {
    /// Ranges of the simple uppercase map.
    pub upper: Vec<CaseMappingRange>,
    /// Ranges of the simple lowercase map.
    pub lower: Vec<CaseMappingRange>,
}

impl NonBmpCaseFunctions {
    /// Both range lists are well formed.
    pub open spec fn wf(&self) -> bool {
        cmr_ranges_wf(self.upper@) && cmr_ranges_wf(self.lower@)
    }

    /// For a non-BMP code point whose UTF-16 decomposition consists of
    /// `lead` and `trail`, return `true` iff its uppercased form differs
    /// from the code point.
    pub fn changes_when_upper_cased_non_bmp(&self, lead: u16, trail: u16) -> (r: bool)
        requires
            self.wf(),
        ensures
            r == cmr_any_match(self.upper@, lead, trail),
    {
        changes_when_cased_non_bmp(&self.upper, lead, trail)
    }

    /// For a non-BMP code point whose UTF-16 decomposition consists of
    /// `lead` and `trail`, return `true` iff its lowercased form differs
    /// from the code point.
    pub fn changes_when_lower_cased_non_bmp(&self, lead: u16, trail: u16) -> (r: bool)
        requires
            self.wf(),
        ensures
            r == cmr_any_match(self.lower@, lead, trail),
    {
        changes_when_cased_non_bmp(&self.lower, lead, trail)
    }

    /// For a non-BMP code point whose UTF-16 decomposition consists of
    /// `lead` and `trail`, return the UTF-16 trail unit of its uppercased
    /// form; for most code points this just returns `trail`.
    pub fn to_upper_case_non_bmp_trail(&self, lead: u16, trail: u16) -> (r: u16)
        requires
            self.wf(),
        ensures
            !cmr_any_match(self.upper@, lead, trail) ==> r == trail,
            forall|k: int|
                0 <= k < self.upper@.len() && cmr_matches(#[trigger] self.upper@[k], lead, trail)
                    ==> r == trail.wrapping_add(self.upper@[k].delta),
    {
        to_case_non_bmp_trail(&self.upper, lead, trail)
    }

    /// For a non-BMP code point whose UTF-16 decomposition consists of
    /// `lead` and `trail`, return the UTF-16 trail unit of its lowercased
    /// form; for most code points this just returns `trail`.
    pub fn to_lower_case_non_bmp_trail(&self, lead: u16, trail: u16) -> (r: u16)
        requires
            self.wf(),
        ensures
            !cmr_any_match(self.lower@, lead, trail) ==> r == trail,
            forall|k: int|
                0 <= k < self.lower@.len() && cmr_matches(#[trigger] self.lower@[k], lead, trail)
                    ==> r == trail.wrapping_add(self.lower@[k].delta),
    {
        to_case_non_bmp_trail(&self.lower, lead, trail)
    }
}

/// Build the compiled non-BMP case tests from the simple uppercase and
/// lowercase maps, coalescing each into its maximal ranges.
pub fn generate_non_bmp_case_functions(uppercase_map: &CaseMap, lowercase_map: &CaseMap) -> (r:
    NonBmpCaseFunctions)
    requires
        uppercase_map.wf(),
        uppercase_map.leads_consistent(),
        lowercase_map.wf(),
        lowercase_map.leads_consistent(),
    ensures
        r.wf(),
        cmr_ranges_maximal(r.upper@),
        cmr_ranges_maximal(r.lower@),
        cmr_ranges_represent(r.upper@, uppercase_map.entries@),
        cmr_ranges_represent(r.lower@, lowercase_map.entries@),
{
    NonBmpCaseFunctions {
        upper: compute_conversion_ranges(uppercase_map),
        lower: compute_conversion_ranges(lowercase_map),
    }
}

} // verus!
