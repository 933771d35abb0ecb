//! Model of the dense per-BMP-code-point character information the data
//! source supplies: classification flags and case deltas, reached through a
//! per-code-point index.

use vstd::prelude::*;

use crate::{DOLLAR_SIGN, LOW_LINE, MAX_BMP};

verus! {

/// Flag bit: the code point matches the WhiteSpace or LineTerminator
/// productions.
pub const FLAG_SPACE: u16 = 1;

/// Flag bit: the code point has the Unicode property ID_Start.
pub const FLAG_UNICODE_ID_START: u16 = 2;

/// Flag bit: the code point has ID_Continue but not ID_Start.
pub const FLAG_UNICODE_ID_CONTINUE_ONLY: u16 = 4;

/// The per-code-point record of the dense BMP table: classification flags
/// and the wrapping deltas to the upper- and lowercased forms.
#[derive(Clone, Copy, Debug, PartialEq, Eq, Structural)]
pub struct CharacterInfo {
    /// Wrapping delta from the code point to its uppercased form.
    pub upper_delta: u16,
    /// Wrapping delta from the code point to its lowercased form.
    pub lower_delta: u16,
    /// Classification flag bits.
    pub flags: u16,
}

impl CharacterInfo {
    /// The record's code point matches WhiteSpace or LineTerminator.
    pub open spec fn spec_is_space(&self) -> bool {
        self.flags & FLAG_SPACE != 0
    }

    /// Whether the record's code point matches WhiteSpace or
    /// LineTerminator.
    pub fn is_space(&self) -> (r: bool)
        ensures
            r == self.spec_is_space(),
    {
        self.flags & FLAG_SPACE != 0
    }

    /// The record's code point has ID_Start.
    pub open spec fn spec_is_unicode_id_start(&self) -> bool {
        self.flags & FLAG_UNICODE_ID_START != 0
    }

    /// Whether the record's code point has ID_Start.
    pub fn is_unicode_id_start(&self) -> (r: bool)
        ensures
            r == self.spec_is_unicode_id_start(),
    {
        self.flags & FLAG_UNICODE_ID_START != 0
    }

    /// The record's code point has ID_Continue but not ID_Start.
    pub open spec fn spec_is_unicode_id_continue_only(&self) -> bool {
        self.flags & FLAG_UNICODE_ID_CONTINUE_ONLY != 0
    }

    /// Whether the record's code point has ID_Continue but not ID_Start.
    pub fn is_unicode_id_continue_only(&self) -> (r: bool)
        ensures
            r == self.spec_is_unicode_id_continue_only(),
    {
        self.flags & FLAG_UNICODE_ID_CONTINUE_ONLY != 0
    }
}

/// The dense BMP information: the distinct `CharacterInfo` records and a
/// per-code-point index into them.
pub struct BmpInfo {
    /// One entry per BMP code point, indexing into `table`.
    pub index: Vec<u32>,
    /// The distinct character records.
    pub table: Vec<CharacterInfo>,
}

impl BmpInfo {
    /// One index entry per BMP code point, each in bounds of the table.
    pub open spec fn wf(&self) -> bool {
        &&& self.index@.len() == 0x1_0000
        &&& forall|i: int|
            0 <= i < self.index@.len() ==> (#[trigger] self.index@[i]) < self.table@.len()
    }

    /// The character record of code point `code`.
    pub open spec fn spec_char_info(&self, code: u32) -> CharacterInfo
        recommends
            self.wf(),
            code <= MAX_BMP,
    {
        self.table@[self.index@[code as int] as int]
    }

    /// Look up the character record of code point `code`.
    pub fn char_info(&self, code: u32) -> (r: CharacterInfo)
        requires
            self.wf(),
            code <= MAX_BMP,
        ensures
            r == self.spec_char_info(code),
    {
        self.table[self.index[code as usize] as usize]
    }
}

/// The code point is one of the compatibility identifier characters
/// admitted beside the Unicode identifier properties.
pub open spec fn spec_is_id_compat(code: u32) -> bool {
    code == DOLLAR_SIGN || code == LOW_LINE
}

/// Whether the code point is a compatibility identifier character.
pub fn is_id_compat(code: u32) -> (r: bool)
    ensures
        r == spec_is_id_compat(code),
{
    code == DOLLAR_SIGN || code == LOW_LINE
}

/// The BMP code point may start an identifier: it has ID_Start, or is a
/// compatibility identifier character.
pub open spec fn spec_is_id_start(bmp: &BmpInfo, code: u32) -> bool {
    bmp.spec_char_info(code).spec_is_unicode_id_start() || spec_is_id_compat(code)
}

/// Whether the BMP code point may start an identifier.
pub fn is_id_start(bmp: &BmpInfo, code: u32) -> (r: bool)
    requires
        bmp.wf(),
        code <= MAX_BMP,
    ensures
        r == spec_is_id_start(bmp, code),
{
    let cinfo = bmp.char_info(code);
    cinfo.is_unicode_id_start() || is_id_compat(code)
}

/// The BMP code point may appear in an identifier after its first
/// character: it has ID_Continue (alone or with ID_Start), or is a
/// compatibility identifier character.
pub open spec fn spec_is_id_continue(bmp: &BmpInfo, code: u32) -> bool {
    bmp.spec_char_info(code).spec_is_unicode_id_continue_only() || spec_is_id_start(bmp, code)
}

/// Whether the BMP code point may appear in an identifier after its first
/// character.
pub fn is_id_continue(bmp: &BmpInfo, code: u32) -> (r: bool)
    requires
        bmp.wf(),
        code <= MAX_BMP,
    ensures
        r == spec_is_id_continue(bmp, code),
{
    let cinfo = bmp.char_info(code);
    cinfo.is_unicode_id_continue_only() || is_id_start(bmp, code)
}

/// The BMP code point matches WhiteSpace or LineTerminator.
pub open spec fn spec_is_space(bmp: &BmpInfo, code: u32) -> bool {
    bmp.spec_char_info(code).spec_is_space()
}

/// Whether the BMP code point matches WhiteSpace or LineTerminator.
pub fn is_space(bmp: &BmpInfo, code: u32) -> (r: bool)
    requires
        bmp.wf(),
        code <= MAX_BMP,
    ensures
        r == spec_is_space(bmp, code),
{
    let cinfo = bmp.char_info(code);
    cinfo.is_space()
}

} // verus!
