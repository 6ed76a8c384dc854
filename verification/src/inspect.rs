//! Showing how full a filesystem is.

use vstd::prelude::*;

verus! {

/// The length of the bar that shows how full a filesystem is.
pub const BAR_LEN: usize = 24;

/// How many of the [`BAR_LEN`] places of the bar are filled when `blocks`
/// of the 192 blocks are in use.
pub fn memory_bar(blocks: usize) -> (filled: usize)
    requires
        blocks <= 192,
    ensures
        filled == blocks * BAR_LEN / 192,
        filled <= BAR_LEN,
{
    blocks * BAR_LEN / 192
}

} // verus!
