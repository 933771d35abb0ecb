//! Two-level index tables: narrowing of index arrays to their chosen
//! element width, and the reconstruction contract tying the split tables to
//! the dense array they encode.

use vstd::prelude::*;

verus! {

/// The unsigned integer width chosen by the external index splitter for one
/// emitted array.
#[derive(Clone, Copy, Debug, PartialEq, Eq, Structural)]
pub enum NumericType {
    /// 8-bit elements.
    U8,
    /// 16-bit elements.
    U16,
    /// 32-bit elements.
    U32,
}

/// An index array narrowed to its element width.
pub enum NarrowedIndex {
    /// Elements truncated to 8 bits.
    U8(Vec<u8>),
    /// Elements truncated to 16 bits.
    U16(Vec<u16>),
    /// Elements kept at 32 bits.
    U32(Vec<u32>),
}

/// Whether every element of `index` fits the width `elem_type` without
/// loss, so that narrowing it is exact.
pub open spec fn spec_width_fits(index: Seq<u32>, elem_type: NumericType) -> bool {
    match elem_type {
        NumericType::U8 => forall|i: int| 0 <= i < index.len() ==> index[i] < 0x100,
        NumericType::U16 => forall|i: int| 0 <= i < index.len() ==> index[i] < 0x1_0000,
        NumericType::U32 => true,
    }
}

/// Check that the supplied element width can represent every value of the
/// array, so that a caller can reject a width that narrowing would silently
/// corrupt.
pub fn width_fits(index: &Vec<u32>, elem_type: NumericType) -> (r: bool)
    ensures
        r == spec_width_fits(index@, elem_type),
{
    let bound: u64 = match elem_type {
        NumericType::U8 => 0x100,
        NumericType::U16 => 0x1_0000,
        NumericType::U32 => 0x1_0000_0000,
    };
    let mut i: usize = 0;
    while i < index.len()
        invariant
            i <= index@.len(),
            bound == match elem_type {
                NumericType::U8 => 0x100u64,
                NumericType::U16 => 0x1_0000u64,
                NumericType::U32 => 0x1_0000_0000u64,
            },
            forall|k: int| 0 <= k < i ==> (index@[k] as u64) < bound,
        decreases index@.len() - i,
    {
        if index[i] as u64 >= bound {
            return false;
        }
        i = i + 1;
    }
    true
}

/// The narrowing of `index` to width `elem_type` produced `r`: the variant
/// is the one of the width, lengths agree, and each element is the
/// corresponding value truncated to the width.
pub open spec fn narrowing_exact(index: Seq<u32>, elem_type: NumericType, r: NarrowedIndex) -> bool {
    match r {
        NarrowedIndex::U8(v) => elem_type == NumericType::U8 && v@.len() == index.len()
            && forall|i: int| 0 <= i < index.len() ==> v@[i] == index[i] as u8,
        NarrowedIndex::U16(v) => elem_type == NumericType::U16 && v@.len() == index.len()
            && forall|i: int| 0 <= i < index.len() ==> v@[i] == index[i] as u16,
        NarrowedIndex::U32(v) => elem_type == NumericType::U32 && v@ == index,
    }
}

/// Narrow one index array to the element width the external splitter chose
/// for it, truncating each value to that width.
pub fn generate_index_table(index: &Vec<u32>, elem_type: NumericType) -> (r: NarrowedIndex)
    ensures
        narrowing_exact(index@, elem_type, r),
{
    match elem_type {
        NumericType::U8 => {
            let mut v: Vec<u8> = Vec::new();
            let mut i: usize = 0;
            while i < index.len()
                invariant
                    i <= index@.len(),
                    v@.len() == i,
                    forall|k: int| 0 <= k < i ==> v@[k] == index@[k] as u8,
                decreases index@.len() - i,
            {
                v.push(#[verifier::truncate] (index[i] as u8));
                i = i + 1;
            }
            NarrowedIndex::U8(v)
        }
        NumericType::U16 => {
            let mut v: Vec<u16> = Vec::new();
            let mut i: usize = 0;
            while i < index.len()
                invariant
                    i <= index@.len(),
                    v@.len() == i,
                    forall|k: int| 0 <= k < i ==> v@[k] == index@[k] as u16,
                decreases index@.len() - i,
            {
                v.push(#[verifier::truncate] (index[i] as u16));
                i = i + 1;
            }
            NarrowedIndex::U16(v)
        }
        NumericType::U32 => {
            let mut v: Vec<u32> = Vec::new();
            let mut i: usize = 0;
            while i < index.len()
                invariant
                    i <= index@.len(),
                    v@ == index@.take(i as int),
                decreases index@.len() - i,
            {
                v.push(index[i]);
                proof {
                    assert(v@ =~= index@.take(i + 1));
                }
                i = i + 1;
            }
            proof {
                assert(v@ =~= index@);
            }
            NarrowedIndex::U32(v)
        }
    }
}

/// Narrow the two index arrays of one split, each to its own width.
pub fn generate_index_tables(
    index1: &Vec<u32>,
    index1_elem_type: NumericType,
    index2: &Vec<u32>,
    index2_elem_type: NumericType,
) -> (r: (NarrowedIndex, NarrowedIndex))
    ensures
        narrowing_exact(index1@, index1_elem_type, r.0),
        narrowing_exact(index2@, index2_elem_type, r.1),
{
    (generate_index_table(index1, index1_elem_type), generate_index_table(index2, index2_elem_type))
}

/// A logical array of attribute values, physically represented as a value
/// table plus two index arrays and a shift.  The reconstruction invariant
/// is established by the external index splitter and only consumed and
/// validated here.
pub struct IndexedTable {
    /// The attribute values, deduplicated by the splitter.
    pub values: Vec<u32>,
    /// First-level index, entered with the code point's high bits.
    pub index1: Vec<u32>,
    /// Second-level index, entered with a first-level entry recombined
    /// with the code point's low bits.
    pub index2: Vec<u32>,
    /// How many low bits of a code point the second level consumes.
    pub shift: u32,
}

impl IndexedTable {
    /// The mask selecting the low `shift` bits of a code point.
    pub open spec fn spec_mask(&self) -> u32 {
        ((1u32 << self.shift) - 1) as u32
    }

    /// The position in `index2` that code point `c` maps to.
    pub open spec fn spec_pos(&self, c: u32) -> u32 {
        (self.index1@[(c >> self.shift) as int] << self.shift) | (c & self.spec_mask())
    }

    /// Every indexing step of the lookup for `c` stays in bounds.
    pub open spec fn spec_in_domain(&self, c: u32) -> bool {
        &&& (c >> self.shift) < self.index1@.len()
        &&& self.spec_pos(c) < self.index2@.len()
        &&& self.index2@[self.spec_pos(c) as int] < self.values@.len()
    }

    /// The value the two-level representation yields for code point `c`:
    /// `values[index2[(index1[c >> shift] << shift) | (c & ((1 << shift) - 1))]]`.
    pub open spec fn spec_lookup(&self, c: u32) -> u32 {
        self.values@[self.index2@[self.spec_pos(c) as int] as int]
    }

    /// The reconstruction invariant: for every code point `c` of the
    /// domain, the lookup stays in bounds and yields `direct[c]`.
    pub open spec fn reconstructs(&self, direct: Seq<u32>) -> bool {
        &&& forall|c: u32| c < direct.len() ==> self.spec_in_domain(c)
        &&& forall|c: u32| c < direct.len() ==> self.spec_lookup(c) == direct[c as int]
    }

    /// Look up the attribute value of code point `c` through the two index
    /// tables.
    pub fn lookup_via_two_level_index(&self, c: u32) -> (r: u32)
        requires
            self.shift < 32,
            self.spec_in_domain(c),
        ensures
            r == self.spec_lookup(c),
    {
        proof {
            let sh = self.shift;
            assert(1u32 << sh >= 1) by (bit_vector)
                requires
                    sh < 32,
            ;
        }
        let mask = (1u32 << self.shift) - 1;
        let i1 = self.index1[(c >> self.shift) as usize];
        let pos = (i1 << self.shift) | (c & mask);
        self.values[self.index2[pos as usize] as usize]
    }

    /// Check the reconstruction invariant against the dense array the
    /// split was computed from, so that a table assembled from an external
    /// split is validated rather than trusted.
    pub fn validate(&self, direct: &Vec<u32>) -> (r: bool)
        requires
            self.shift < 32,
            direct@.len() <= 0x1_0000_0000,
        ensures
            r == self.reconstructs(direct@),
    {
        proof {
            let sh = self.shift;
            assert(1u32 << sh >= 1) by (bit_vector)
                requires
                    sh < 32,
            ;
        }
        let mask = (1u32 << self.shift) - 1;
        let mut c: usize = 0;
        while c < direct.len()
            invariant
                c <= direct@.len(),
                direct@.len() <= 0x1_0000_0000,
                self.shift < 32,
                mask == self.spec_mask(),
                forall|t: u32|
                    t < c ==> #[trigger] self.spec_in_domain(t) && self.spec_lookup(t)
                        == direct@[t as int],
            decreases direct@.len() - c,
        {
            let code = c as u32;
            let i1pos = (code >> self.shift) as usize;
            if i1pos >= self.index1.len() {
                assert(!self.spec_in_domain(code));
                return false;
            }
            let pos = ((self.index1[i1pos] << self.shift) | (code & mask)) as usize;
            if pos >= self.index2.len() {
                assert(!self.spec_in_domain(code));
                return false;
            }
            let vi = self.index2[pos] as usize;
            if vi >= self.values.len() {
                assert(!self.spec_in_domain(code));
                return false;
            }
            if self.values[vi] != direct[c] {
                assert(self.spec_lookup(code) != direct@[code as int]);
                return false;
            }
            c = c + 1;
        }
        proof {
            assert forall|t: u32| t < direct@.len() implies #[trigger] self.spec_lookup(t)
                == direct@[t as int] by {
                assert(self.spec_in_domain(t));
            }
        }
        true
    }
}

/// Two-level lookup law: for every code point in the domain of a table
/// that reconstructs a dense array, the two-level lookup yields exactly
/// the direct lookup in that array.
pub proof fn lemma_lookup_matches_direct(table: &IndexedTable, direct: Seq<u32>, c: u32)
    requires
        table.reconstructs(direct),
        c < direct.len(),
    ensures
        table.spec_in_domain(c),
        table.spec_lookup(c) == direct[c as int],
{
}

/// Assemble a two-level table from an externally computed split and
/// validate it against the dense array it must reconstruct; an invalid
/// split is rejected rather than trusted.
pub fn build_indexed_table(
    values: Vec<u32>,
    index1: Vec<u32>,
    index2: Vec<u32>,
    shift: u32,
    direct: &Vec<u32>,
) -> (r: Option<IndexedTable>)
    requires
        shift < 32,
        direct@.len() <= 0x1_0000_0000,
    ensures
        match r {
            Some(t) => t.values@ == values@ && t.index1@ == index1@ && t.index2@ == index2@
                && t.shift == shift && t.reconstructs(direct@),
            None => !(IndexedTable { values, index1, index2, shift }).reconstructs(direct@),
        },
{
    let table = IndexedTable { values, index1, index2, shift };
    if table.validate(direct) {
        Some(table)
    } else {
        None
    }
}

} // verus!
