//! Settings and sizing of the per-color hash table construction.
use vstd::prelude::*;
use crate::arith::{is_next_power_of_two, next_power_of_two_u32};

verus! {

/// Settings of the per-color hash table construction.
pub struct BuildHashTableColorsSettings {
    pub workgroup_size: u32,
}

/// Number of hash table slots for `cell_count` cells: sixteen slots per
/// cell, rounded up to a power of two, which keeps the load factor at most
/// one half.
pub fn min_table(cell_count: u32) -> (r: u32)
    requires
        cell_count * 16 <= 0x8000_0000,
    ensures
        is_next_power_of_two(r as int, cell_count * 16),
{
    next_power_of_two_u32(cell_count * 8 * 2)
}

} // verus!
