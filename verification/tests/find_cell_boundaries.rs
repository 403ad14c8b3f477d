use squishy_volumes_gpu::generate_indices::generate_indices_on_cpu;
use squishy_volumes_gpu::find_cell_boundaries::find_cell_boundaries_on_cpu;

fn cells(positions: &[[f32; 4]], cell_size: f32) -> Vec<[i32; 4]> {
    positions
        .iter()
        .map(|p| p.map(|c| (c / cell_size).floor() as i32))
        .collect()
}

// The device kernel needs a GPU and its shader; this runs the host statement
// of its rule (`find_cell_boundaries_on_cpu`) on the same positions.
#[test]
fn test_test_simple() {
    let cell_size = 0.3;

    let positions = [
        [0., 0., 0., 0.],
        [0.1, 0., 0., 0.],
        [0.2, 0., 0., 0.],
        [0.3, 0., 0., 0.],
        [0.4, 0., 0., 0.],
        [0.5, 0., 0., 0.],
        [0.6, 0., 0., 0.],
        [0.7, 0., 0., 0.],
    ];

    assert_eq!(
        vec![0, 0, 1, 0, 0, 1, 0, 1],
        find_cell_boundaries_on_cpu(&cells(&positions, cell_size))
    );
}

#[test]
fn boundaries_of_no_cells() {
    assert_eq!(Vec::<u32>::new(), find_cell_boundaries_on_cpu(&[]));
}

#[test]
fn every_cell_change_is_a_boundary() {
    let cells = [[0, 0, 0, 0], [0, 1, 0, 0], [0, 1, 0, 0], [-1, 1, 0, 0], [-1, 1, 0, 7]];
    assert_eq!(vec![1, 0, 1, 1, 1], find_cell_boundaries_on_cpu(&cells));
}

// Host statement of the index-generating kernel, on the same count.
#[test]
fn generated_indices_count_up() {
    assert_eq!(
        (0..100).collect::<Vec<u32>>(),
        generate_indices_on_cpu(100)
    );
    assert_eq!(Vec::<u32>::new(), generate_indices_on_cpu(0));
}
