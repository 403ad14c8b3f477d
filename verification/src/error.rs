//! Errors of pipeline creation and of input validation, and the checks that
//! produce the latter.
use vstd::prelude::*;

verus! {

/// A device limit that the requirements exceed.
#[derive(Debug, Clone, PartialEq, Eq)]
pub struct ExceedingLimit {
    pub name: &'static str,
    pub required: u64,
    pub allowed: u64,
}

/// Why a compute pipeline could not be set up.
#[allow(inconsistent_fields)]
#[derive(Debug, Clone, PartialEq, Eq)]
pub enum GpuPipelineCreationError {
    /// Neither the device nor the pipeline tells the subgroup size.
    FailedToDetermineSubgroupSize { label: &'static str },
    /// Two pipelines that work together run with different subgroup sizes.
    SubgroupSizeMismatch { a_label: &'static str, a_size: u32, b_label: &'static str, b_size: u32 },
    /// The workgroup size is not a multiple of the subgroup size.
    WorkgroupSizeNotMultipleOfSubgroupSize { label: &'static str, workgroup_size: u32, subgroup_size: u32 },
    /// The subgroup size is below what the pipeline needs.
    SubgroupSizeTooSmall { label: &'static str, subgroup_size: u32, needed: u32 },
    /// A pipeline constant is given twice.
    PipelineDuplicateConstant(&'static str),
}

/// Why host input was refused before it was uploaded.
#[allow(inconsistent_fields)]
#[derive(Debug, Clone, PartialEq, Eq)]
pub enum GpuInputError {
    /// Two inputs that must be equally long are not.
    LengthMismatch { a: &'static str, a_len: usize, b: &'static str, b_len: usize },
    /// An input must be a fixed multiple of another in length and is not.
    LengthMultipleMismatch {
        a: &'static str,
        a_len: usize,
        b: &'static str,
        b_len: usize,
        multiple: usize,
    },
    /// An index points past the end of the indexed input.
    IndexOutOfBounds { indices: &'static str, index: usize, indexed: &'static str, indexed_len: usize },
}

/// The inputs named `a_name` and `b_name` must have the same length.
pub fn check_length<A, B>(a_name: &'static str, a: &[A], b_name: &'static str, b: &[B]) -> (r: Result<(), GpuInputError>)
    ensures
        a@.len() == b@.len() <==> r is Ok,
        a@.len() != b@.len() ==> r == Err::<(), _>(
            GpuInputError::LengthMismatch { a: a_name, a_len: a@.len() as usize, b: b_name, b_len: b@.len() as usize },
        ),
{
    if a.len() != b.len() {
        Err(GpuInputError::LengthMismatch { a: a_name, a_len: a.len(), b: b_name, b_len: b.len() })
    } else {
        Ok(())
    }
}

/// The input named `a_name` must be `multiple` times as long as `b_name`.
pub fn check_length_multiple<A, B>(
    a_name: &'static str,
    a: &[A],
    b_name: &'static str,
    b: &[B],
    multiple: usize,
) -> (r: Result<(), GpuInputError>)
    requires
        b@.len() * multiple <= usize::MAX,
    ensures
        a@.len() == b@.len() * multiple <==> r is Ok,
        a@.len() != b@.len() * multiple ==> r == Err::<(), _>(
            GpuInputError::LengthMultipleMismatch {
                a: a_name,
                a_len: a@.len() as usize,
                b: b_name,
                b_len: b@.len() as usize,
                multiple,
            },
        ),
{
    if a.len() != b.len() * multiple {
        Err(
            GpuInputError::LengthMultipleMismatch {
                a: a_name,
                a_len: a.len(),
                b: b_name,
                b_len: b.len(),
                multiple,
            },
        )
    } else {
        Ok(())
    }
}

/// Every index in `indices` must point into the input named `indexed_name`;
/// the error names the first one that does not.
pub fn check_indices_valid<T>(
    indices_name: &'static str,
    indices: &[u32],
    indexed_name: &'static str,
    indexed: &[T],
) -> (r: Result<(), GpuInputError>)
    ensures
        r is Ok <==> forall|i: int| 0 <= i < indices@.len() ==> (#[trigger] indices@[i]) < indexed@.len(),
        r matches Err(e) ==> exists|i: int|
            0 <= i < indices@.len() && (#[trigger] indices@[i]) >= indexed@.len() && (forall|j: int|
                0 <= j < i ==> (#[trigger] indices@[j]) < indexed@.len()) && e == (GpuInputError::IndexOutOfBounds {
                indices: indices_name,
                index: indices@[i] as usize,
                indexed: indexed_name,
                indexed_len: indexed@.len() as usize,
            }),
{
    let n = indices.len();
    for i in 0..n
        invariant
            n == indices@.len(),
            forall|j: int| 0 <= j < i ==> (#[trigger] indices@[j]) < indexed@.len(),
    {
        let index = indices[i];
        if (index as usize) >= indexed.len() {
            return Err(
                GpuInputError::IndexOutOfBounds {
                    indices: indices_name,
                    index: index as usize,
                    indexed: indexed_name,
                    indexed_len: indexed.len(),
                },
            );
        }
    }
    Ok(())
}

} // verus!
