//! Dense lookup tables over the fixed Latin-1 range, produced by direct
//! evaluation of a mapping at every code point.

use vstd::prelude::*;

use crate::bmp::BmpInfo;

verus! {

/// Generate a Latin-1 lookup table, populated by evaluating the given
/// mapping at each of the 256 Latin-1 code points.
pub fn generate_latin1_table<F: Fn(u32) -> u8>(mapper: F) -> (t: Vec<u8>)
    requires
        forall|c: u32| c < 0x100 ==> call_requires(mapper, (c,)),
    ensures
        t@.len() == 0x100,
        forall|i: int| 0 <= i < 0x100 ==> call_ensures(mapper, ((i as u32),), #[trigger] t@[i]),
{
    let mut t: Vec<u8> = Vec::new();
    let mut code: u32 = 0;
    while code < 0x100
        invariant
            code <= 0x100,
            t@.len() == code,
            forall|c: u32| c < 0x100 ==> call_requires(mapper, (c,)),
            forall|i: int| 0 <= i < code ==> call_ensures(mapper, ((i as u32),), #[trigger] t@[i]),
        decreases 0x100 - code,
    {
        t.push(mapper(code));
        code = code + 1;
    }
    t
}

/// The lowercased form of Latin-1 code point `code`: the code point plus
/// its record's lowercase delta, with 16-bit wrapping.
pub open spec fn spec_latin1_lower(bmp: &BmpInfo, code: u32) -> u16
    recommends
        bmp.wf(),
        code < 0x100,
{
    (code as u16).wrapping_add(bmp.spec_char_info(code).lower_delta)
}

/// Lowercasing never leaves the Latin-1 range: required of the data before
/// a Latin-1 lowercase table can be emitted.
pub open spec fn latin1_lowercase_fits(bmp: &BmpInfo) -> bool {
    forall|c: u32| c < 0x100 ==> spec_latin1_lower(bmp, c) <= 0xFF
}

/// Build the Latin-1 lowercase lookup table: entry `i` holds the
/// lowercased form of the code point with value `i`.
pub fn generate_latin1_lookup_tables(bmp: &BmpInfo) -> (t: Vec<u8>)
    requires
        bmp.wf(),
        latin1_lowercase_fits(bmp),
    ensures
        t@.len() == 0x100,
        forall|i: int| 0 <= i < 0x100 ==> (#[trigger] t@[i]) == spec_latin1_lower(bmp, i as u32),
{
    let lower_mapper = |code: u32| -> (r: u8)
        requires
            bmp.wf(),
            latin1_lowercase_fits(bmp),
            code < 0x100,
        ensures
            r == spec_latin1_lower(bmp, code),
        {
            let cinfo = bmp.char_info(code);
            let lower = (code as u16).wrapping_add(cinfo.lower_delta);
            assert(lower == spec_latin1_lower(bmp, code));
            assert(lower <= 0xFF);
            lower as u8
        };
    generate_latin1_table(lower_mapper)
}

} // verus!
