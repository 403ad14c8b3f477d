use squishy_volumes_gpu::build_hash_table::max_table;
use squishy_volumes_gpu::build_hash_table_colors::min_table;
use squishy_volumes_gpu::color_cells::min_color_counts_len;
use squishy_volumes_gpu::color_cells_2::min_counts_and_prefixes_given_indirect;
use squishy_volumes_gpu::find_minimum::reduction_levels;
use squishy_volumes_gpu::gpu_state::{
    after_recorded_step, frame_action, grid_allocator_size, grow_grid_nodes,
    initial_max_num_grid_nodes, FrameAction, FrameOutcome, StepSchedule,
};

#[test]
fn hash_tables_have_a_power_of_two_slots() {
    assert_eq!(max_table(0), 1);
    assert_eq!(max_table(1), 16);
    assert_eq!(max_table(5), 128);
    assert_eq!(min_table(64), 1024);
    assert_eq!(min_table(65), 2048);
}

#[test]
fn color_counts_cover_every_subgroup() {
    // 1000 cells in workgroups of 64: 16 workgroups, 2 subgroups each
    assert_eq!(min_color_counts_len(64, 32, 65535, 1000), 16 * 2 * 8);
    assert_eq!(min_counts_and_prefixes_given_indirect(64, 32, &[16, 1, 1]), 256);
    assert_eq!(min_counts_and_prefixes_given_indirect(64, 64, &[4, 3, 2]), 192);
}

#[test]
fn reduction_levels_suffice() {
    assert_eq!(reduction_levels(1, 32), 0);
    assert_eq!(reduction_levels(2, 32), 1);
    assert_eq!(reduction_levels(32, 32), 1);
    assert_eq!(reduction_levels(33, 32), 2);
    assert_eq!(reduction_levels(1000, 32), 2);
    assert_eq!(reduction_levels(1025, 32), 3);
}

#[test]
fn grid_node_planning() {
    assert_eq!(initial_max_num_grid_nodes(10), 1000);
    assert_eq!(initial_max_num_grid_nodes(5000), 5000);
    assert_eq!(grid_allocator_size(1000), 300_000);
    assert_eq!(grow_grid_nodes(1000, 100), Some(2000));
    assert_eq!(grow_grid_nodes(2700, 100), None);
    assert_eq!(grow_grid_nodes(4000, 100), None);
}

#[test]
fn steps_are_submitted_in_batches() {
    assert_eq!(
        after_recorded_step(3, 7),
        StepSchedule {
            submit: false,
            done: false
        }
    );
    assert_eq!(
        after_recorded_step(10, 25),
        StepSchedule {
            submit: true,
            done: false
        }
    );
    assert_eq!(
        after_recorded_step(7, 7),
        StepSchedule {
            submit: true,
            done: true
        }
    );
}

#[test]
fn frame_outcomes_decide_the_next_step() {
    assert_eq!(
        frame_action(FrameOutcome::Unfinished, 12),
        FrameAction::RecordMore { steps_per_frame: 24 }
    );
    assert_eq!(
        frame_action(FrameOutcome::IndirectLimitExceeded, 12),
        FrameAction::RecordMoreThenRedo
    );
    assert_eq!(
        frame_action(FrameOutcome::TableTriesExceeded, 12),
        FrameAction::RecordMoreThenRedo
    );
    assert_eq!(
        frame_action(FrameOutcome::ParticleCloseToInverted, 12),
        FrameAction::FinishWithError
    );
    assert_eq!(frame_action(FrameOutcome::FrameTimeReached, 12), FrameAction::Finish);
    assert_eq!(frame_action(FrameOutcome::Failed, 12), FrameAction::Fail);
}
