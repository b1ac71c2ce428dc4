//! The fixed configuration of the classifier: the separator character, the
//! length of the encoded date, and the ceilings for its three fields.

use vstd::prelude::*;

verus! {

/// Character dividing the category from the encoded date in a filename's stem.
pub const SEPARATOR: char = '_';

/// Number of characters in a well-formed encoded date (`DDMMYYYY`).
pub const DATE_LENGTH: usize = 8;

/// Largest accepted day value. Only this upper bound is enforced: `00` passes.
pub const VALID_DAYS: u16 = 31;

/// Largest accepted month value. Only this upper bound is enforced.
pub const VALID_MONTHS: u16 = 12;

/// Largest accepted year value. Only this upper bound is enforced.
pub const VALID_YEARS: u16 = 2099;

} // verus!
