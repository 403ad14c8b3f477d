//! Sizing of the hash table that maps cells to blocks.
use vstd::prelude::*;
use crate::arith::{is_next_power_of_two, next_power_of_two_u32};

verus! {

/// Number of hash table slots for `cell_count` cells: sixteen slots per
/// cell, rounded up to a power of two, which keeps the load factor at most
/// one half.
pub fn max_table(cell_count: u32) -> (r: u32)
    requires
        cell_count * 16 <= 0x8000_0000,
    ensures
        is_next_power_of_two(r as int, cell_count * 16),
{
    next_power_of_two_u32(cell_count * 8 * 2)
}

} // verus!
