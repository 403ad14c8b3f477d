//! Settings and sizing of the counts and prefixes of cell coloring.
use vstd::prelude::*;

verus! {

/// Settings of cell coloring.
pub struct ColorCells2Settings {
    pub workgroup_size: u32,
    pub dispatch_limit: u32,
}

impl ColorCells2Settings {
    /// Whether cell coloring can run with subgroups of `subgroup_size`: the
    /// workgroup is non-empty and made of whole subgroups, and a subgroup has
    /// room for the eight colors (one bit per dimension).
    pub fn fits_subgroup_size(&self, subgroup_size: u32) -> (r: bool)
        requires
            subgroup_size > 0,
        ensures
            r == (self.workgroup_size > 0 && self.workgroup_size % subgroup_size == 0 && subgroup_size >= 8),
    {
        self.workgroup_size > 0 && self.workgroup_size % subgroup_size == 0 && subgroup_size >= 8
    }
}

/// Number of counters and prefixes: eight for every subgroup of every
/// workgroup that the dispatch `indirect` launches.
pub fn min_counts_and_prefixes_given_indirect(workgroup_size: u32, subgroup_size: u32, indirect: &[u32; 3]) -> (r: u32)
    requires
        subgroup_size > 0,
        indirect@[0] * indirect@[1] <= u32::MAX,
        indirect@[0] * indirect@[1] * indirect@[2] <= u32::MAX,
        indirect@[0] * indirect@[1] * indirect@[2] * (workgroup_size / subgroup_size) * 8 <= u32::MAX,
    ensures
        r == indirect@[0] * indirect@[1] * indirect@[2] * (workgroup_size / subgroup_size) * 8,
{
    let subgroups_per_workgroup = workgroup_size / subgroup_size;
    let actual_workgroup_count = indirect[0] * indirect[1] * indirect[2];
    assert(actual_workgroup_count * subgroups_per_workgroup <= u32::MAX) by (nonlinear_arith)
        requires actual_workgroup_count * subgroups_per_workgroup * 8 <= u32::MAX;
    actual_workgroup_count * subgroups_per_workgroup * 8
}

} // verus!
