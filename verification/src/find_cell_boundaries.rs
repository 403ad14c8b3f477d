//! Where one grid cell ends in a sequence of positions sorted by cell.
//!
//! The compute kernel marks, for each position, whether the next position
//! lies in another cell; this is its contract, stated and run on the host
//! over the cells of the positions.
use vstd::prelude::*;

verus! {

/// Whether entry `i` ends a run of equal cells: it is the last entry or the
/// next entry is another cell.
pub open spec fn ends_run(cells: Seq<[i32; 4]>, i: int) -> bool {
    i + 1 == cells.len() || cells[i]@ != cells[i + 1]@
}

fn same_cell(a: &[i32; 4], b: &[i32; 4]) -> (r: bool)
    ensures
        r == (a@ == b@),
{
    let r = a[0] == b[0] && a[1] == b[1] && a[2] == b[2] && a[3] == b[3];
    if r {
        assert(a@ =~= b@);
    }
    r
}

/// 1 for every entry that ends a run of equal cells, 0 otherwise.
pub fn find_cell_boundaries_on_cpu(cells: &[[i32; 4]]) -> (r: Vec<u32>)
    ensures
        r.len() == cells@.len(),
        forall|i: int| 0 <= i < r.len() ==> #[trigger] r[i] == if ends_run(cells@, i) { 1u32 } else { 0u32 },
{
    let n = cells.len();
    let mut boundaries: Vec<u32> = Vec::new();
    for i in 0..n
        invariant
            n == cells@.len(),
            boundaries.len() == i,
            forall|j: int| 0 <= j < i ==> #[trigger] boundaries[j] == if ends_run(cells@, j) { 1u32 } else { 0u32 },
    {
        if i + 1 == n || !same_cell(&cells[i], &cells[i + 1]) {
            boundaries.push(1);
        } else {
            boundaries.push(0);
        }
    }
    boundaries
}

} // verus!
