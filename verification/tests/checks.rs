use squishy_volumes_gpu::compiled_module::{check_unique_constants, CompiledModule};
use squishy_volumes_gpu::error::{
    check_indices_valid, check_length, check_length_multiple, ExceedingLimit, GpuInputError,
    GpuPipelineCreationError,
};

fn module(label: Option<&'static str>, subgroup_size: u32) -> CompiledModule<(), ()> {
    CompiledModule {
        label,
        bind_group_layout: (),
        compute_pipeline: (),
        subgroup_size,
    }
}

#[test]
fn lengths_must_match() {
    assert_eq!(check_length("indices", &[1u32, 2], "keys", &[3u32, 4]), Ok(()));
    assert_eq!(
        check_length("indices", &[1u32, 2], "keys", &[3u32]),
        Err(GpuInputError::LengthMismatch {
            a: "indices",
            a_len: 2,
            b: "keys",
            b_len: 1
        })
    );
}

#[test]
fn lengths_must_be_a_multiple() {
    assert_eq!(
        check_length_multiple("vertices", &[0u32; 6], "triangles", &[0u32; 2], 3),
        Ok(())
    );
    assert_eq!(
        check_length_multiple("vertices", &[0u32; 5], "triangles", &[0u32; 2], 3),
        Err(GpuInputError::LengthMultipleMismatch {
            a: "vertices",
            a_len: 5,
            b: "triangles",
            b_len: 2,
            multiple: 3
        })
    );
}

#[test]
fn indices_must_be_in_bounds() {
    assert_eq!(check_indices_valid("indices", &[0, 2, 1], "positions", &[0u8; 3]), Ok(()));
    assert_eq!(
        check_indices_valid("indices", &[0, 5, 3], "positions", &[0u8; 3]),
        Err(GpuInputError::IndexOutOfBounds {
            indices: "indices",
            index: 5,
            indexed: "positions",
            indexed_len: 3
        })
    );
}

#[test]
fn subgroup_sizes_must_agree() {
    let a = module(Some("a"), 32);
    let b = module(None, 64);
    assert_eq!(a.check_same_sugroup_size(&module(Some("c"), 32)), Ok(()));
    assert_eq!(
        a.check_same_sugroup_size(&b),
        Err(GpuPipelineCreationError::SubgroupSizeMismatch {
            a_label: "a",
            a_size: 32,
            b_label: "unlabeled",
            b_size: 64
        })
    );
}

#[test]
fn workgroup_size_must_be_a_multiple_of_the_subgroup_size() {
    let a = module(Some("a"), 32);
    assert_eq!(a.check_workgroup_size_multiple_of_subgroup_size(64), Ok(()));
    assert_eq!(
        a.check_workgroup_size_multiple_of_subgroup_size(48),
        Err(GpuPipelineCreationError::WorkgroupSizeNotMultipleOfSubgroupSize {
            label: "a",
            workgroup_size: 48,
            subgroup_size: 32
        })
    );
}

#[test]
fn subgroup_size_must_be_large_enough() {
    let a = module(None, 4);
    assert_eq!(a.check_subgroup_size_at_least(4), Ok(()));
    assert_eq!(
        a.check_subgroup_size_at_least(8),
        Err(GpuPipelineCreationError::SubgroupSizeTooSmall {
            label: "unlabeled",
            subgroup_size: 4,
            needed: 8
        })
    );
}

#[test]
fn constants_must_be_unique() {
    assert_eq!(check_unique_constants(&["WORKGROUP_SIZE", "SHADER_ID"]), Ok(()));
    assert_eq!(
        check_unique_constants(&["A", "B", "WORKGROUP_SIZE", "B", "WORKGROUP_SIZE"]),
        Err(GpuPipelineCreationError::PipelineDuplicateConstant("B"))
    );
}

#[test]
fn exceeding_limit_holds_its_numbers() {
    let limit = ExceedingLimit {
        name: "max_storage_buffers_per_shader_stage",
        required: 20,
        allowed: 8,
    };
    assert_eq!(limit.clone(), limit);
}
