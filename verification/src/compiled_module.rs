//! A compiled compute pipeline and the checks on its subgroup size.
use vstd::prelude::*;
use crate::error::GpuPipelineCreationError;
use crate::shader_registry::same_label;

verus! {

/// A compute pipeline with its bind group layout, its label and the
/// subgroup size it runs with. `Layout` and `Pipeline` are the device's
/// handle types.
pub struct CompiledModule<Layout, Pipeline> {
    pub label: Option<&'static str>,
    pub bind_group_layout: Layout,
    pub compute_pipeline: Pipeline,
    pub subgroup_size: u32,
}

/// The label an error reports for a module: its own, or `"unlabeled"`.
pub open spec fn reported_label(label: Option<&'static str>) -> &'static str {
    match label {
        Some(l) => l,
        None => "unlabeled",
    }
}

fn label_or_unlabeled(label: Option<&'static str>) -> (r: &'static str)
    ensures
        r == reported_label(label),
{
    match label {
        Some(l) => l,
        None => "unlabeled",
    }
}

impl<Layout, Pipeline> CompiledModule<Layout, Pipeline> {
    /// Both modules must run with the same subgroup size.
    pub fn check_same_sugroup_size<L2, P2>(&self, other: &CompiledModule<L2, P2>) -> (r: Result<(), GpuPipelineCreationError>)
        ensures
            r is Ok <==> self.subgroup_size == other.subgroup_size,
            r is Err ==> r == Err::<(), _>(
                GpuPipelineCreationError::SubgroupSizeMismatch {
                    a_label: reported_label(self.label),
                    a_size: self.subgroup_size,
                    b_label: reported_label(other.label),
                    b_size: other.subgroup_size,
                },
            ),
    {
        if self.subgroup_size != other.subgroup_size {
            Err(
                GpuPipelineCreationError::SubgroupSizeMismatch {
                    a_label: label_or_unlabeled(self.label),
                    a_size: self.subgroup_size,
                    b_label: label_or_unlabeled(other.label),
                    b_size: other.subgroup_size,
                },
            )
        } else {
            Ok(())
        }
    }

    /// The workgroup size must be a multiple of the subgroup size.
    pub fn check_workgroup_size_multiple_of_subgroup_size(&self, workgroup_size: u32) -> (r: Result<(), GpuPipelineCreationError>)
        ensures
            r is Ok <==> (if self.subgroup_size == 0 {
                workgroup_size == 0
            } else {
                workgroup_size % self.subgroup_size == 0
            }),
            r is Err ==> r == Err::<(), _>(
                GpuPipelineCreationError::WorkgroupSizeNotMultipleOfSubgroupSize {
                    label: reported_label(self.label),
                    workgroup_size,
                    subgroup_size: self.subgroup_size,
                },
            ),
    {
        if !workgroup_size.is_multiple_of(self.subgroup_size) {
            Err(
                GpuPipelineCreationError::WorkgroupSizeNotMultipleOfSubgroupSize {
                    label: label_or_unlabeled(self.label),
                    workgroup_size,
                    subgroup_size: self.subgroup_size,
                },
            )
        } else {
            Ok(())
        }
    }

    /// The subgroup size must be at least `needed`.
    pub fn check_subgroup_size_at_least(&self, needed: u32) -> (r: Result<(), GpuPipelineCreationError>)
        ensures
            r is Ok <==> self.subgroup_size >= needed,
            r is Err ==> r == Err::<(), _>(
                GpuPipelineCreationError::SubgroupSizeTooSmall {
                    label: reported_label(self.label),
                    subgroup_size: self.subgroup_size,
                    needed,
                },
            ),
    {
        if self.subgroup_size < needed {
            Err(
                GpuPipelineCreationError::SubgroupSizeTooSmall {
                    label: label_or_unlabeled(self.label),
                    subgroup_size: self.subgroup_size,
                    needed,
                },
            )
        } else {
            Ok(())
        }
    }
}

/// The pipeline constants' names must be distinct; the error names the first
/// name that was given before.
pub fn check_unique_constants(names: &[&'static str]) -> (r: Result<(), GpuPipelineCreationError>)
    ensures
        r is Ok <==> forall|i: int, j: int| 0 <= i < j < names@.len() ==> (#[trigger] names@[i])@ != (#[trigger] names@[j])@,
        r matches Err(e) ==> exists|j: int|
            0 < j < names@.len() && e == GpuPipelineCreationError::PipelineDuplicateConstant(#[trigger] names@[j])
                && (exists|i: int| 0 <= i < j && (#[trigger] names@[i])@ == names@[j]@)
                && forall|k: int, i: int| 0 <= i < k < j ==> (#[trigger] names@[i])@ != (#[trigger] names@[k])@,
{
    let n = names.len();
    for j in 0..n
        invariant
            n == names@.len(),
            forall|k: int, i: int| 0 <= i < k < j ==> (#[trigger] names@[i])@ != (#[trigger] names@[k])@,
    {
        for i in 0..j
            invariant
                n == names@.len(),
                j < n,
                forall|k: int, i2: int| 0 <= i2 < k < j ==> (#[trigger] names@[i2])@ != (#[trigger] names@[k])@,
                forall|i2: int| 0 <= i2 < i ==> (#[trigger] names@[i2])@ != names@[j as int]@,
        {
            if same_label(names[i], names[j]) {
                assert(names@[i as int]@ == names@[j as int]@);
                return Err(GpuPipelineCreationError::PipelineDuplicateConstant(names[j]));
            }
        }
    }
    Ok(())
}

/// The pipeline constants' names with the two every pipeline gets from the
/// host appended: the shader's id and the workgroup size.
pub open spec fn with_host_constants(names: Seq<&'static str>) -> Seq<&'static str> {
    names.push("SHADER_ID").push("WORKGROUP_SIZE")
}

/// The names of a pipeline's constants, the host's two appended, provided
/// that no name is given twice; the error names the first repeated name.
pub fn pipeline_constant_names(names: &[&'static str]) -> (r: Result<Vec<&'static str>, GpuPipelineCreationError>)
    ensures
        r is Ok <==> forall|i: int, j: int|
            0 <= i < j < with_host_constants(names@).len() ==> (#[trigger] with_host_constants(names@)[i])@
                != (#[trigger] with_host_constants(names@)[j])@,
        r matches Ok(v) ==> v@ == with_host_constants(names@),
        r matches Err(e) ==> {
            let all = with_host_constants(names@);
            exists|j: int|
                0 < j < all.len() && e == GpuPipelineCreationError::PipelineDuplicateConstant(#[trigger] all[j])
                    && (exists|i: int| 0 <= i < j && (#[trigger] all[i])@ == all[j]@)
                    && forall|k: int, i: int| 0 <= i < k < j ==> (#[trigger] all[i])@ != (#[trigger] all[k])@
        },
{
    let mut all: Vec<&'static str> = Vec::new();
    for i in 0..names.len()
        invariant
            all@ == names@.take(i as int),
    {
        all.push(names[i]);
        assert(all@ =~= names@.take(i + 1));
    }
    assert(names@.take(names@.len() as int) =~= names@);
    all.push("SHADER_ID");
    all.push("WORKGROUP_SIZE");
    assert(all@ =~= with_host_constants(names@));
    match check_unique_constants(all.as_slice()) {
        Ok(()) => Ok(all),
        Err(e) => Err(e),
    }
}

/// The subgroup size a compiled pipeline runs with: the adapter's fixed one,
/// or else the one the pipeline reports (a report of zero counts as none).
pub fn reported_subgroup_size(label: &'static str, fixed: Option<u32>, from_pipeline: Option<u32>) -> (r: Result<
    u32,
    GpuPipelineCreationError,
>)
    requires
        fixed matches Some(s) ==> s > 0,
    ensures
        r == match fixed {
            Some(s) => Ok(s),
            None => match from_pipeline {
                Some(p) => if p > 0 {
                    Ok(p)
                } else {
                    Err(GpuPipelineCreationError::FailedToDetermineSubgroupSize { label })
                },
                None => Err(GpuPipelineCreationError::FailedToDetermineSubgroupSize { label }),
            },
        },
{
    match fixed {
        Some(s) => Ok(s),
        None => match from_pipeline {
            Some(p) => if p > 0 {
                Ok(p)
            } else {
                Err(GpuPipelineCreationError::FailedToDetermineSubgroupSize { label })
            },
            None => Err(GpuPipelineCreationError::FailedToDetermineSubgroupSize { label }),
        },
    }
}

} // verus!
