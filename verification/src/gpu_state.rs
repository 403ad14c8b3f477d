//! The decisions of stepping a frame: how large the grid may get, when
//! recorded steps are submitted, and what a frame's status leads to.
use vstd::prelude::*;
use crate::prefix_sum::{prefix_sum_on_cpu, sum_before};

verus! {

/// Bytes of GPU memory planned per grid node.
pub const BYTES_PER_GRID_NODE: u64 = 300;

/// The grid nodes planned for at first: one per particle (the count taken
/// as a `u32`), and at least 1000.
pub fn initial_max_num_grid_nodes(num_particles: usize) -> (r: u32)
    ensures
        r == if (num_particles as u32) > 1000 { num_particles as u32 } else { 1000u32 },
        r >= 1000,
{
    let n = num_particles as u32;
    if n > 1000 { n } else { 1000 }
}

/// Bytes the main allocator needs for `max_num_grid_nodes` grid nodes.
pub fn grid_allocator_size(max_num_grid_nodes: u32) -> (r: u64)
    ensures
        r == max_num_grid_nodes as int * BYTES_PER_GRID_NODE as int,
{
    max_num_grid_nodes as u64 * BYTES_PER_GRID_NODE
}

/// What to do after recording a step.
#[derive(Debug, Clone, Copy, PartialEq, Eq, Structural)]
pub struct StepSchedule {
    /// Submit the recorded work to the queue.
    pub submit: bool,
    /// The frame's steps are all recorded.
    pub done: bool,
}

/// After `recorded_steps` steps of `steps_per_frame`: submit every tenth step
/// and the last, and stop after the last.
pub fn after_recorded_step(recorded_steps: u32, steps_per_frame: u32) -> (r: StepSchedule)
    ensures
        r.submit == (recorded_steps == steps_per_frame || recorded_steps % 10 == 0),
        r.done == (recorded_steps == steps_per_frame),
{
    StepSchedule {
        submit: recorded_steps == steps_per_frame || recorded_steps.is_multiple_of(10),
        done: recorded_steps == steps_per_frame,
    }
}

/// What the status reported at the end of the recorded steps.
#[derive(Debug, Clone, Copy, PartialEq, Eq, Structural)]
pub enum FrameOutcome {
    /// No error, but the frame time was not reached.
    Unfinished,
    /// More grid nodes were needed than planned for.
    IndirectLimitExceeded,
    /// The hash table ran out of tries.
    TableTriesExceeded,
    /// A particle came too close to inversion.
    ParticleCloseToInverted,
    /// The frame time was reached.
    FrameTimeReached,
    /// Any other error.
    Failed,
}

/// What stepping the frame does next.
#[derive(Debug, Clone, Copy, PartialEq, Eq, Structural)]
pub enum FrameAction {
    /// Record more steps, with twice the steps per frame.
    RecordMore { steps_per_frame: u32 },
    /// Record more steps and redo the frame afterwards with a larger grid.
    RecordMoreThenRedo,
    /// Finish the frame and report the error with it.
    FinishWithError,
    /// Finish the frame.
    Finish,
    /// Give the error back.
    Fail,
}

/// The next action for the status `outcome`.
pub fn frame_action(outcome: FrameOutcome, steps_per_frame: u32) -> (r: FrameAction)
    requires
        outcome == FrameOutcome::Unfinished ==> steps_per_frame * 2 <= u32::MAX,
    ensures
        r == match outcome {
            FrameOutcome::Unfinished => FrameAction::RecordMore { steps_per_frame: (steps_per_frame * 2) as u32 },
            FrameOutcome::IndirectLimitExceeded => FrameAction::RecordMoreThenRedo,
            FrameOutcome::TableTriesExceeded => FrameAction::RecordMoreThenRedo,
            FrameOutcome::ParticleCloseToInverted => FrameAction::FinishWithError,
            FrameOutcome::FrameTimeReached => FrameAction::Finish,
            FrameOutcome::Failed => FrameAction::Fail,
        },
{
    match outcome {
        FrameOutcome::Unfinished => FrameAction::RecordMore { steps_per_frame: steps_per_frame * 2 },
        FrameOutcome::IndirectLimitExceeded => FrameAction::RecordMoreThenRedo,
        FrameOutcome::TableTriesExceeded => FrameAction::RecordMoreThenRedo,
        FrameOutcome::ParticleCloseToInverted => FrameAction::FinishWithError,
        FrameOutcome::FrameTimeReached => FrameAction::Finish,
        FrameOutcome::Failed => FrameAction::Fail,
    }
}

/// What the loop over a frame's steps keeps between rounds: whether the
/// frame must be redone afterwards, and the steps recorded per round.
#[derive(Debug, Clone, Copy, PartialEq, Eq, Structural)]
pub struct FrameLoop {
    pub redo: bool,
    pub steps_per_frame: u32,
}

/// How a round of the frame loop ends.
#[derive(Debug, Clone, Copy, PartialEq, Eq, Structural)]
pub enum LoopDecision {
    /// Record another round with this state.
    Continue(FrameLoop),
    /// Leave the loop and redo the frame with a larger grid; an error of
    /// this round is dropped.
    Redo,
    /// Leave the loop and finish the frame.
    Finish,
    /// Leave the loop and finish the frame, reporting the error with it.
    FinishWithError,
    /// Give the error back at once.
    Fail,
}

/// One round of the frame loop: the status `outcome` decides, as
/// `frame_action` says, and a redo asked for in an earlier round wins over
/// finishing (with or without an error) once the loop ends.
pub fn frame_loop_step(state: FrameLoop, outcome: FrameOutcome) -> (r: LoopDecision)
    requires
        outcome == FrameOutcome::Unfinished ==> state.steps_per_frame * 2 <= u32::MAX,
    ensures
        r == match outcome {
            FrameOutcome::Unfinished => LoopDecision::Continue(
                FrameLoop { redo: state.redo, steps_per_frame: (state.steps_per_frame * 2) as u32 },
            ),
            FrameOutcome::IndirectLimitExceeded => LoopDecision::Continue(
                FrameLoop { redo: true, steps_per_frame: state.steps_per_frame },
            ),
            FrameOutcome::TableTriesExceeded => LoopDecision::Continue(
                FrameLoop { redo: true, steps_per_frame: state.steps_per_frame },
            ),
            FrameOutcome::ParticleCloseToInverted => if state.redo {
                LoopDecision::Redo
            } else {
                LoopDecision::FinishWithError
            },
            FrameOutcome::FrameTimeReached => if state.redo {
                LoopDecision::Redo
            } else {
                LoopDecision::Finish
            },
            FrameOutcome::Failed => LoopDecision::Fail,
        },
        state.redo ==> !(r is Finish) && !(r is FinishWithError),
{
    match frame_action(outcome, state.steps_per_frame) {
        FrameAction::RecordMore { steps_per_frame } => LoopDecision::Continue(FrameLoop { redo: state.redo, steps_per_frame }),
        FrameAction::RecordMoreThenRedo => LoopDecision::Continue(FrameLoop { redo: true, steps_per_frame: state.steps_per_frame }),
        FrameAction::FinishWithError => if state.redo {
            LoopDecision::Redo
        } else {
            LoopDecision::FinishWithError
        },
        FrameAction::Finish => if state.redo {
            LoopDecision::Redo
        } else {
            LoopDecision::Finish
        },
        FrameAction::Fail => LoopDecision::Fail,
    }
}

/// The grid node limit for redoing a frame: twice the current one, unless
/// the current one already allows 27 grid nodes per particle, in which case
/// there is none (the theoretical maximum is exceeded).
pub fn grow_grid_nodes(max_num_grid_nodes: u32, num_particles: usize) -> (r: Option<u32>)
    requires
        num_particles * 27 <= usize::MAX,
        max_num_grid_nodes < num_particles * 27 ==> max_num_grid_nodes * 2 <= u32::MAX,
    ensures
        r is None <==> max_num_grid_nodes >= num_particles * 27,
        r matches Some(m) ==> m == max_num_grid_nodes * 2,
{
    if max_num_grid_nodes as usize >= num_particles * 27 {
        None
    } else {
        Some(max_num_grid_nodes * 2)
    }
}

/// The lists of the first `n` vertices, one after the other.
pub open spec fn concat_lists(lists: Seq<Vec<u32>>, n: int) -> Seq<u32>
    decreases n,
{
    if n <= 0 { seq![] } else { concat_lists(lists, n - 1) + lists[n - 1]@ }
}

/// Number of entries in the lists of the first `n` vertices.
pub open spec fn entries_before(lists: Seq<Vec<u32>>, n: int) -> int
    decreases n,
{
    if n <= 0 { 0 } else { entries_before(lists, n - 1) + lists[n - 1]@.len() }
}

proof fn lemma_entries_monotone(lists: Seq<Vec<u32>>, i: int, j: int)
    requires
        0 <= i <= j,
    ensures
        entries_before(lists, i) <= entries_before(lists, j),
    decreases j,
{
    if j > i {
        lemma_entries_monotone(lists, i, j - 1);
    }
}

proof fn lemma_concat_len(lists: Seq<Vec<u32>>, n: int)
    requires
        0 <= n,
    ensures
        concat_lists(lists, n).len() == entries_before(lists, n),
    decreases n,
{
    if n > 0 {
        lemma_concat_len(lists, n - 1);
    }
}

/// The list of vertex `k` is found in the flat array at its offset.
pub proof fn lemma_list_at_offset(lists: Seq<Vec<u32>>, n: int, k: int)
    requires
        0 <= k < n <= lists.len(),
    ensures
        concat_lists(lists, n).subrange(entries_before(lists, k), entries_before(lists, k + 1)) == lists[k]@,
    decreases n,
{
    lemma_concat_len(lists, n - 1);
    lemma_entries_monotone(lists, 0, k);
    let e = concat_lists(lists, n);
    if k == n - 1 {
        assert(e.subrange(entries_before(lists, k), entries_before(lists, k + 1)) =~= lists[k]@);
    } else {
        lemma_list_at_offset(lists, n - 1, k);
        lemma_entries_monotone(lists, k + 1, n - 1);
        assert(e.subrange(entries_before(lists, k), entries_before(lists, k + 1)) =~= concat_lists(lists, n - 1).subrange(
            entries_before(lists, k),
            entries_before(lists, k + 1),
        ));
    }
}

/// The triangle lists of all vertices as one array, with the offset where
/// each vertex's list starts.
pub fn vertex_triangle_layout(lists: &Vec<Vec<u32>>) -> (r: (Vec<u32>, Vec<u32>))
    requires
        entries_before(lists@, lists@.len() as int) <= u32::MAX,
    ensures
        r.0.len() == lists@.len(),
        forall|i: int| 0 <= i < r.0.len() ==> #[trigger] r.0[i] == entries_before(lists@, i),
        r.1@ == concat_lists(lists@, lists@.len() as int),
{
    let n = lists.len();
    let mut lens: Vec<u32> = Vec::new();
    let mut flat: Vec<u32> = Vec::new();
    for i in 0..n
        invariant
            n == lists@.len(),
            entries_before(lists@, n as int) <= u32::MAX,
            lens.len() == i,
            forall|j: int| 0 <= j < i ==> #[trigger] lens[j] == lists@[j]@.len(),
            flat@ == concat_lists(lists@, i as int),
    {
        proof {
            lemma_entries_monotone(lists@, i + 1, n as int);
            lemma_entries_monotone(lists@, 0, i as int);
        }
        let list = &lists[i];
        lens.push(list.len() as u32);
        let ghost before = flat@;
        let m = list.len();
        for j in 0..m
            invariant
                m == list@.len(),
                flat@ == before + list@.take(j as int),
        {
            flat.push(list[j]);
            assert(flat@ =~= before + list@.take(j + 1));
        }
        assert(list@.take(m as int) =~= list@);
    }
    proof {
        lemma_sum_matches_entries(lists@, lens@, n as int);
    }
    let offsets = prefix_sum_on_cpu(lens.as_slice());
    proof {
        assert forall|i: int| 0 <= i < n implies #[trigger] offsets[i] == entries_before(lists@, i) by {
            lemma_sum_matches_entries(lists@, lens@, i);
        }
    }
    (offsets, flat)
}

proof fn lemma_sum_matches_entries(lists: Seq<Vec<u32>>, lens: Seq<u32>, j: int)
    requires
        0 <= j <= lists.len(),
        lens.len() == lists.len(),
        forall|k: int| 0 <= k < lists.len() ==> #[trigger] lens[k] == lists[k]@.len(),
    ensures
        sum_before(lens, j) == entries_before(lists, j),
    decreases j,
{
    if j > 0 {
        lemma_sum_matches_entries(lists, lens, j - 1);
    }
}

} // verus!
