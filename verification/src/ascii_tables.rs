//! Dense boolean lookup tables over the fixed ASCII range, produced by
//! direct evaluation of a classifier predicate at every code point.

use vstd::prelude::*;

use crate::bmp::{
    is_id_continue, is_id_start, is_space, spec_is_id_continue, spec_is_id_start, spec_is_space,
    BmpInfo,
};
use crate::MAX_BMP;

verus! {

/// Generate a boolean ASCII lookup table, populated by evaluating the
/// given classifier predicate at each of the 128 ASCII code points.
pub fn generate_ascii_table<F: Fn(u32) -> bool>(predicate: F) -> (t: Vec<bool>)
    requires
        forall|c: u32| c < 0x80 ==> call_requires(predicate, (c,)),
    ensures
        t@.len() == 0x80,
        forall|i: int| 0 <= i < 0x80 ==> call_ensures(predicate, ((i as u32),), #[trigger] t@[i]),
{
    let mut t: Vec<bool> = Vec::new();
    let mut code: u32 = 0;
    while code < 0x80
        invariant
            code <= 0x80,
            t@.len() == code,
            forall|c: u32| c < 0x80 ==> call_requires(predicate, (c,)),
            forall|i: int|
                0 <= i < code ==> call_ensures(predicate, ((i as u32),), #[trigger] t@[i]),
        decreases 0x80 - code,
    {
        t.push(predicate(code));
        code = code + 1;
    }
    t
}

/// The three ASCII lookup tables: identifier start, identifier part, and
/// white space, each entry holding the classification of its code point.
pub struct AsciiLookupTables {
    /// Whether code point `i` may start an identifier.
    pub isidstart: Vec<bool>,
    /// Whether code point `i` may appear within an identifier after its
    /// first character.
    pub isident: Vec<bool>,
    /// Whether code point `i` matches WhiteSpace or LineTerminator.
    pub isspace: Vec<bool>,
}

/// Build the three ASCII lookup tables from the dense BMP information.
pub fn generate_ascii_lookup_tables(bmp: &BmpInfo) -> (r: AsciiLookupTables)
    requires
        bmp.wf(),
    ensures
        r.isidstart@.len() == 0x80,
        r.isident@.len() == 0x80,
        r.isspace@.len() == 0x80,
        forall|i: int|
            0 <= i < 0x80 ==> (#[trigger] r.isidstart@[i]) == spec_is_id_start(bmp, i as u32),
        forall|i: int|
            0 <= i < 0x80 ==> (#[trigger] r.isident@[i]) == spec_is_id_continue(bmp, i as u32),
        forall|i: int|
            0 <= i < 0x80 ==> (#[trigger] r.isspace@[i]) == spec_is_space(bmp, i as u32),
{
    let idstart_pred = |code: u32| -> (r: bool)
        requires
            bmp.wf(),
            code <= MAX_BMP,
        ensures
            r == spec_is_id_start(bmp, code),
        { is_id_start(bmp, code) };
    let isidstart = generate_ascii_table(idstart_pred);

    let ident_pred = |code: u32| -> (r: bool)
        requires
            bmp.wf(),
            code <= MAX_BMP,
        ensures
            r == spec_is_id_continue(bmp, code),
        { is_id_continue(bmp, code) };
    let isident = generate_ascii_table(ident_pred);

    let space_pred = |code: u32| -> (r: bool)
        requires
            bmp.wf(),
            code <= MAX_BMP,
        ensures
            r == spec_is_space(bmp, code),
        { is_space(bmp, code) };
    let isspace = generate_ascii_table(space_pred);

    AsciiLookupTables { isidstart, isident, isspace }
}

} // verus!
