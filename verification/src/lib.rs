//! Host-side logic of the GPU simulation pipeline: dispatch sizing,
//! the partitioning allocator for GPU buffers and the checks and
//! encodings that prepare data for the compute kernels.

pub mod arith;
pub mod bounding_volume_hierarchy;
pub mod build_hash_table;
pub mod build_hash_table_colors;
pub mod cells_to_murmur;
pub mod color_cells;
pub mod color_cells_2;
pub mod indirect;
pub mod prefix_sum;
pub mod shader_registry;
pub mod adapter;
pub mod allocator;
pub mod compiled_module;
pub mod cone;
pub mod error;
pub mod find_cell_boundaries;
pub mod find_minimum;
pub mod generate_indices;
pub mod gpu_state;
