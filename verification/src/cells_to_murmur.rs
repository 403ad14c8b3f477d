//! Settings of hashing cells with murmur.
use vstd::prelude::*;

verus! {

/// Settings of hashing cells with murmur.
pub struct CellsToMurmurSettings {
    pub workgroup_size: u32,
}

} // verus!
