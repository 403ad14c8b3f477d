use squishy_volumes_gpu::shader_registry::ShaderRegistry;

#[test]
fn labels_get_ids_in_order_and_keep_them() {
    let mut registry = ShaderRegistry::new();
    let a = registry.get_shader_id("prefix_sum");
    let b = registry.get_shader_id("count_subkeys");
    assert_eq!(a, 1);
    assert_eq!(b, 2);
    // asking again gives the same id, but still moves the counter
    assert_eq!(registry.get_shader_id("prefix_sum"), 1);
    assert_eq!(registry.get_shader_id("find_minimum"), 4);
    assert_eq!(registry.get_shader_label(1), Some("prefix_sum"));
    assert_eq!(registry.get_shader_label(2), Some("count_subkeys"));
    assert_eq!(registry.get_shader_label(3), None);
    assert_eq!(registry.get_shader_label(4), Some("find_minimum"));
    assert_eq!(registry.get_shader_label(0), None);
}
