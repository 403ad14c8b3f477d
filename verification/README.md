# squishy_volumes_gpu

Host-side logic of a GPU particle simulation, verified with Verus.

- `src/` is the verified library: the partitioning allocator that hands
  out aligned ranges of GPU buffers (`allocator`), dispatch sizing
  (`indirect`), the checks on adapters, inputs and compiled pipelines
  (`adapter`, `error`,
  `compiled_module`), the registry of shader ids (`shader_registry`), the
  word layout of bounding volume hierarchies (`bounding_volume_hierarchy`),
  buffer sizes of the compute passes, the cone mesh (`cone`) and the
  decisions taken while stepping a frame (`gpu_state`). Buffers are a type
  parameter, so the library never touches the device itself.
- `app/` drives the device with `wgpu`: it creates the adapter and the
  buffers, feeds them to the allocator, uploads and downloads data, and
  holds what needs floating point.
- `tests/` exercises the library on concrete values.
