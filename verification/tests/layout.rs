use squishy_volumes_gpu::bounding_volume_hierarchy::{
    encode_nodes, is_encodable, leaf_index_array, BvhNode,
};
use squishy_volumes_gpu::gpu_state::vertex_triangle_layout;
use squishy_volumes_gpu::prefix_sum::prefix_sum_on_cpu;

#[test]
fn prefix_sums_are_exclusive() {
    assert_eq!(prefix_sum_on_cpu(&[3, 0, 2, 5]), vec![0, 3, 3, 5]);
    assert_eq!(prefix_sum_on_cpu(&[]), Vec::<u32>::new());
    let owns: Vec<u32> = [
        0b00000001u32, 0b00000100, 0b00101000, 0b00000111, 0b00000000, 0b00000000, 0b00011000,
        0b00000000, 0b00000000, 0b00000000,
    ]
    .to_vec();
    let pops: Vec<u32> = owns.iter().cloned().map(u32::count_ones).collect();
    assert_eq!(prefix_sum_on_cpu(&pops), vec![0, 1, 2, 4, 7, 7, 7, 9, 9, 9]);
}

#[test]
fn hierarchy_layout() {
    let mut children = [None; 64];
    children[0] = Some(1);
    children[3] = Some(2);
    children[40] = Some(1);
    let nodes = vec![
        BvhNode::Internal { children },
        BvhNode::Leaf {
            indices: vec![7, 8, 9],
        },
        BvhNode::Leaf { indices: vec![4] },
    ];
    // root: 2 masks + 3 offsets = 5 words, leaves 4 words each
    assert_eq!(
        encode_nodes(&nodes),
        vec![
            0b1001,
            1 << 8,
            5,
            9,
            5, // root
            0,
            0,
            0,
            3, // first leaf
            0,
            0,
            3,
            4, // second leaf
        ]
    );
    assert_eq!(leaf_index_array(&nodes), vec![7, 8, 9, 4]);
}

#[test]
fn single_leaf_hierarchy() {
    let nodes = vec![BvhNode::Leaf {
        indices: vec![1, 2],
    }];
    assert_eq!(encode_nodes(&nodes), vec![0, 0, 0, 2]);
    assert_eq!(leaf_index_array(&nodes), vec![1, 2]);
}

#[test]
fn triangle_lists_are_flattened_with_offsets() {
    let lists = vec![vec![0, 1], vec![], vec![1, 2, 3]];
    let (offsets, flat) = vertex_triangle_layout(&lists);
    assert_eq!(offsets, vec![0, 2, 2]);
    assert_eq!(flat, vec![0, 1, 1, 2, 3]);
}

#[test]
fn which_hierarchies_can_be_encoded() {
    assert!(!is_encodable(&[]));
    assert!(is_encodable(&[BvhNode::Leaf { indices: vec![] }]));
    let mut children = [None; 64];
    children[5] = Some(1);
    let nodes = vec![BvhNode::Internal { children }, BvhNode::Leaf { indices: vec![0] }];
    assert!(is_encodable(&nodes));
    let mut dangling = [None; 64];
    dangling[5] = Some(2);
    let nodes = vec![BvhNode::Internal { children: dangling }, BvhNode::Leaf { indices: vec![0] }];
    assert!(!is_encodable(&nodes));
}
