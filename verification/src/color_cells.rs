//! Sizing of the per-subgroup color counts.
use vstd::prelude::*;
use crate::indirect::{DispatchSettings, Indirect};

verus! {

/// Number of color counters: eight colors for every subgroup of every
/// workgroup the dispatch for `len` cells launches.
pub fn min_color_counts_len(workgroup_size: u32, subgroup_size: u32, dispatch_limit: u32, len: u32) -> (r: u32)
    requires
        (DispatchSettings { workgroup_size, dispatch_limit, len }).valid(),
        subgroup_size > 0,
        ({
            let d = Indirect::dispatch_for(DispatchSettings { workgroup_size, dispatch_limit, len });
            &&& d.x * d.y <= u32::MAX
            &&& d.total_workgroups() <= u32::MAX
            &&& d.total_workgroups() * (workgroup_size / subgroup_size) * 8 <= u32::MAX
        }),
    ensures
        r == Indirect::dispatch_for(DispatchSettings { workgroup_size, dispatch_limit, len }).total_workgroups()
            * (workgroup_size / subgroup_size) * 8,
{
    let subgroups_per_workgroup = workgroup_size / subgroup_size;
    let actual_workgroup_count = Indirect::new(DispatchSettings { workgroup_size, dispatch_limit, len }).workgroup_count();
    assert(actual_workgroup_count * subgroups_per_workgroup <= u32::MAX) by (nonlinear_arith)
        requires actual_workgroup_count * subgroups_per_workgroup * 8 <= u32::MAX;
    actual_workgroup_count * subgroups_per_workgroup * 8
}

} // verus!
