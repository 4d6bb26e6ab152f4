pub mod board;
pub mod laws;
pub mod line;
mod random;

use vstd::prelude::*;

verus! {

/// Flat row-major index of the cell at row `i`, column `j` on a board
/// that is `width` cells wide.
pub fn pair_to_index(i: usize, j: usize, width: usize) -> (r: usize)
    requires
        i * width + j <= usize::MAX,
    ensures
        r == i * width + j,
{
    j + i * width
}

} // verus!
