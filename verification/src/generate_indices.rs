//! Settings and input of generating the indices `0..count`.
use vstd::prelude::*;

verus! {

/// Settings of generating indices.
pub struct GenerateIndicesSettings {
    pub workgroup_size: u32,
}

/// What generating indices needs: how many, the limits and the indirect
/// dispatch arguments.
pub struct GenerateIndicesBufferInput<'a> {
    pub count: u32,
    pub limits: &'a [u32],
    pub indirect: &'a [u32],
}

/// The indices `0..count`, as the compute kernel writes them.
pub fn generate_indices_on_cpu(count: u32) -> (r: Vec<u32>)
    ensures
        r@ == Seq::new(count as nat, |i: int| i as u32),
{
    let mut indices: Vec<u32> = Vec::new();
    for i in 0..count
        invariant
            indices@ =~= Seq::new(i as nat, |j: int| j as u32),
    {
        indices.push(i);
    }
    indices
}

} // verus!
