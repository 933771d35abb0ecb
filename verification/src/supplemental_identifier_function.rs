//! Membership functions for non-BMP identifier code points, compiled from
//! a code-point set into a flat sequence of coalesced range tests.

use vstd::prelude::*;

use crate::int_ranges::{
    coalesced, collect_int_ranges, in_ranges, lemma_coalesced_correct, CodePointSet, IntRange,
};
use crate::NON_BMP_MIN;

verus! {

/// Test `code` against each range in turn — the flat shape of an emitted
/// supplemental identifier function's body — falling through to `false`.
pub fn int_ranges_contain(ranges: &Vec<IntRange>, code: u32) -> (r: bool)
    ensures
        r == in_ranges(ranges@, code),
{
    let mut k: usize = 0;
    while k < ranges.len()
        invariant
            k <= ranges@.len(),
            forall|t: int| 0 <= t < k ==> !((#[trigger] ranges@[t]).0 <= code <= ranges@[t].1),
        decreases ranges@.len() - k,
    {
        let rg = ranges[k];
        if rg.0 <= code && code <= rg.1 {
            assert(ranges@[k as int].0 <= code <= ranges@[k as int].1);
            return true;
        }
        k = k + 1;
    }
    false
}

/// Compile the membership function for one identifier code-point set: the
/// set's maximal coalesced ranges, whose union is exactly the set.
pub fn generate_supplemental_identifer_function(set: &CodePointSet) -> (r: Vec<IntRange>)
    requires
        set.wf(),
    ensures
        r@ == coalesced(set.codes@),
        forall|c: u32| in_ranges(r@, c) <==> set.spec_contains(c),
{
    let r = collect_int_ranges(set);
    proof {
        lemma_coalesced_correct(set.codes@);
    }
    r
}

/// The compiled non-BMP identifier membership functions.
pub struct NonBmpIdentifierFunctions {
    /// Coalesced ranges of the identifier-start set.
    pub id_start_ranges: Vec<IntRange>,
    /// Coalesced ranges of the identifier-continue set.
    pub id_continue_ranges: Vec<IntRange>,
}

impl NonBmpIdentifierFunctions {
    /// Return true iff the provided _non-BMP_ code point may validly
    /// appear as the first character in an identifier.
    ///
    /// It is an error to call this function with a BMP code point, i.e.
    /// one whose value is 0xFFFF or lower.
    pub fn is_identifier_start_non_bmp(&self, code: u32) -> (r: bool)
        requires
            code >= NON_BMP_MIN,
        ensures
            r == in_ranges(self.id_start_ranges@, code),
    {
        int_ranges_contain(&self.id_start_ranges, code)
    }

    /// Return true iff the provided _non-BMP_ code point may validly
    /// appear within an identifier after its first character.
    ///
    /// It is an error to call this function with a BMP code point, i.e.
    /// one whose value is 0xFFFF or lower.
    pub fn is_identifier_part_non_bmp(&self, code: u32) -> (r: bool)
        requires
            code >= NON_BMP_MIN,
        ensures
            r == in_ranges(self.id_continue_ranges@, code),
    {
        int_ranges_contain(&self.id_continue_ranges, code)
    }
}

/// Compile both non-BMP identifier membership functions from the
/// identifier start and continue sets.
pub fn generate_isidentifier_start_part_functions(
    id_start_set: &CodePointSet,
    id_continue_set: &CodePointSet,
) -> (r: NonBmpIdentifierFunctions)
    requires
        id_start_set.wf(),
        id_continue_set.wf(),
    ensures
        forall|c: u32| in_ranges(r.id_start_ranges@, c) <==> id_start_set.spec_contains(c),
        forall|c: u32| in_ranges(r.id_continue_ranges@, c) <==> id_continue_set.spec_contains(c),
{
    NonBmpIdentifierFunctions {
        id_start_ranges: generate_supplemental_identifer_function(id_start_set),
        id_continue_ranges: generate_supplemental_identifer_function(id_continue_set),
    }
}

} // verus!
