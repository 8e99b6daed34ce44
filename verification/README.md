# voxel_octree

A voxel renderer built around a sparse octree stored as a flat list of packed
32-bit node words, traced by a Vulkan compute shader.

- `src/` is the verified library: bit fields of a word (`bits`), the node
  word (`octant`), the octree with its walks, insertion and leaf collection
  (`tree`), the index-linked octree (`legacy`), cell numbering
  (`grid`), key bindings (`input`, `keyboard`), the choices made from what
  Vulkan reports about devices, queues, memory types and surfaces (`device`,
  `swapchain`) and the decisions of the render loop (`render`). The raw
  Vulkan constants and flag tests it reads come from `ash` through the
  wrappers in `vkraw`.
- `app/` is the program around it: window and event loop, Vulkan objects,
  buffers, the compute pipeline, and the floating-point camera. It draws
  each frame by tracing the octree in a compute shader (`create_draw_compute`
  and `draw_comp`) and copying the result onto the swapchain image. The
  mesh-and-jump-flood drawing path (`create_jfa_comp`, `create_graphic`,
  `draw_graphic`) is not built: it needs a vertex-data builder for the
  octree, a graphics pipeline and push-constant types that this project does
  not have.
- `tests/` runs the library on concrete values.
