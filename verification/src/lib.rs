//! Build-time compiler of per-code-point Unicode facts into compact lookup
//! structures and decision procedures.
//!
//! The crate turns sparse code-point sets and case-mapping tables into
//! coalesced ranges, chunked decision trees, surrogate-pair delta ranges and
//! two-level index tables, each with a proved correspondence to the input
//! data.  Reading the raw Unicode data and rendering the results as source
//! text are left to the surrounding tooling; everything here is pure
//! computation over plain values.

use vstd::prelude::*;

pub mod ascii_tables;
pub mod bmp;
pub mod index_table;
pub mod int_ranges;
pub mod latin1_tables;
pub mod non_bmp_case_functions;
pub mod special_casing_functions;
pub mod supplemental_identifier_function;

verus! {

/// Largest code point of the Basic Multilingual Plane.
pub const MAX_BMP: u32 = 0xFFFF;

/// Smallest non-BMP code point.
pub const NON_BMP_MIN: u32 = 0x1_0000;

/// Largest Unicode code point.
pub const MAX_CODE_POINT: u32 = 0x10_FFFF;

/// Code point of DOLLAR SIGN, permitted in identifiers for compatibility.
pub const DOLLAR_SIGN: u32 = 0x24;

/// Code point of LOW LINE, permitted in identifiers for compatibility.
pub const LOW_LINE: u32 = 0x5F;

} // verus!
