use squishy_volumes_gpu::adapter::{check_workgroup_limit, fixed_subgroup_size, AdapterError};
use squishy_volumes_gpu::color_cells_2::ColorCells2Settings;
use squishy_volumes_gpu::compiled_module::{pipeline_constant_names, reported_subgroup_size};
use squishy_volumes_gpu::error::GpuPipelineCreationError;
use squishy_volumes_gpu::gpu_state::{frame_loop_step, FrameLoop, FrameOutcome, LoopDecision};

#[test]
fn adapters_need_enough_workgroups() {
    assert_eq!(check_workgroup_limit(65535), Ok(()));
    assert_eq!(
        check_workgroup_limit(65534),
        Err(AdapterError::SmallMaxWorkGroupPerDimension)
    );
}

#[test]
fn subgroup_size_is_fixed_only_when_min_and_max_agree() {
    assert_eq!(fixed_subgroup_size(32, 32), Ok(Some(32)));
    assert_eq!(fixed_subgroup_size(8, 64), Ok(None));
    assert_eq!(fixed_subgroup_size(0, 0), Err(AdapterError::SubgroupSizeZero));
}

#[test]
fn a_redo_wins_over_finishing() {
    let clean = FrameLoop {
        redo: false,
        steps_per_frame: 4,
    };
    assert_eq!(
        frame_loop_step(clean, FrameOutcome::Unfinished),
        LoopDecision::Continue(FrameLoop {
            redo: false,
            steps_per_frame: 8
        })
    );
    let LoopDecision::Continue(marked) = frame_loop_step(clean, FrameOutcome::TableTriesExceeded) else {
        panic!("expected another round");
    };
    assert!(marked.redo);
    assert_eq!(
        frame_loop_step(marked, FrameOutcome::ParticleCloseToInverted),
        LoopDecision::Redo
    );
    assert_eq!(
        frame_loop_step(marked, FrameOutcome::FrameTimeReached),
        LoopDecision::Redo
    );
    assert_eq!(
        frame_loop_step(clean, FrameOutcome::ParticleCloseToInverted),
        LoopDecision::FinishWithError
    );
    assert_eq!(
        frame_loop_step(clean, FrameOutcome::FrameTimeReached),
        LoopDecision::Finish
    );
    assert_eq!(frame_loop_step(marked, FrameOutcome::Failed), LoopDecision::Fail);
}

#[test]
fn host_constants_are_appended_and_must_not_repeat() {
    assert_eq!(
        pipeline_constant_names(&["TIME_STEP"]),
        Ok(vec!["TIME_STEP", "SHADER_ID", "WORKGROUP_SIZE"])
    );
    assert_eq!(
        pipeline_constant_names(&["WORKGROUP_SIZE"]),
        Err(GpuPipelineCreationError::PipelineDuplicateConstant(
            "WORKGROUP_SIZE"
        ))
    );
}

#[test]
fn subgroup_size_comes_from_the_adapter_or_the_pipeline() {
    assert_eq!(reported_subgroup_size("m", Some(32), Some(64)), Ok(32));
    assert_eq!(reported_subgroup_size("m", None, Some(64)), Ok(64));
    assert_eq!(
        reported_subgroup_size("m", None, Some(0)),
        Err(GpuPipelineCreationError::FailedToDetermineSubgroupSize { label: "m" })
    );
    assert_eq!(
        reported_subgroup_size("m", None, None),
        Err(GpuPipelineCreationError::FailedToDetermineSubgroupSize { label: "m" })
    );
}

#[test]
fn cell_coloring_needs_whole_subgroups_of_eight() {
    let settings = ColorCells2Settings {
        workgroup_size: 64,
        dispatch_limit: 65535,
    };
    assert!(settings.fits_subgroup_size(32));
    assert!(!settings.fits_subgroup_size(4));
    assert!(!settings.fits_subgroup_size(48));
    let empty = ColorCells2Settings {
        workgroup_size: 0,
        dispatch_limit: 65535,
    };
    assert!(!empty.fits_subgroup_size(8));
}
