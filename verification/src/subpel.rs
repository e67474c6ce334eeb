//! The shape of the interpolation filters.

use vstd::prelude::*;

verus! {

/// The eight taps of a filter for each of the sixteen positions within a pixel.
pub type FilterBank = [[i32; 8]; 16];

/// A filter bank for each interpolation filter.
pub type SubpelFilters = [FilterBank; 4];

/// Taps are fractions of 128.
pub open spec fn bank_ok(f: FilterBank) -> bool {
    forall|i: int, t: int|
        0 <= i < 16 && 0 <= t < 8 ==> -128 <= #[trigger] f[i][t] <= 128
}

/// All taps of all banks are fractions of 128.
pub open spec fn filters_ok(f: SubpelFilters) -> bool {
    forall|k: int| 0 <= k < 4 ==> bank_ok(#[trigger] f[k])
}

} // verus!
