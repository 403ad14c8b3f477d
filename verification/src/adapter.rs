//! What an adapter must offer before a device is requested from it.
use vstd::prelude::*;

verus! {

/// Why an adapter cannot run the simulation.
#[derive(Debug, Clone, Copy, PartialEq, Eq, Structural)]
pub enum AdapterError {
    /// Fewer workgroups per dispatch dimension than `u16::MAX`.
    SmallMaxWorkGroupPerDimension,
    /// The adapter reports a fixed subgroup size of zero.
    SubgroupSizeZero,
}

/// Dispatches need up to `u16::MAX` workgroups per dimension.
pub fn check_workgroup_limit(max_compute_workgroups_per_dimension: u32) -> (r: Result<(), AdapterError>)
    ensures
        r is Ok <==> max_compute_workgroups_per_dimension >= 0xffff,
        r is Err ==> r == Err::<(), _>(AdapterError::SmallMaxWorkGroupPerDimension),
{
    if max_compute_workgroups_per_dimension < 0xffff {
        Err(AdapterError::SmallMaxWorkGroupPerDimension)
    } else {
        Ok(())
    }
}

/// The subgroup size every pipeline runs with, where the adapter fixes one:
/// `Some(min)` when the smallest and the largest subgroup size agree (an
/// error when that size is zero), `None` when it varies.
pub fn fixed_subgroup_size(subgroup_min_size: u32, subgroup_max_size: u32) -> (r: Result<Option<u32>, AdapterError>)
    ensures
        subgroup_min_size != subgroup_max_size ==> r == Ok::<Option<u32>, AdapterError>(None),
        subgroup_min_size == subgroup_max_size && subgroup_min_size == 0 ==> r == Err::<Option<u32>, _>(
            AdapterError::SubgroupSizeZero,
        ),
        subgroup_min_size == subgroup_max_size && subgroup_min_size > 0 ==> r == Ok::<Option<u32>, AdapterError>(
            Some(subgroup_min_size),
        ),
{
    if subgroup_min_size == subgroup_max_size {
        if subgroup_min_size == 0 {
            Err(AdapterError::SubgroupSizeZero)
        } else {
            Ok(Some(subgroup_min_size))
        }
    } else {
        Ok(None)
    }
}

} // verus!
