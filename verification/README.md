# galaxy_sim

A Barnes-Hut N-body galaxy simulation whose initial conditions are tuned by a genetic search.

- `src/` is the verified library (Verus): the link structure of the octree and the pre-order it
  encodes (`octree`), the octant numbering (`octant`), the spatial hash that finds bodies in
  neighbouring grid cells (`spatial_hash`), the union-find forest that merges touching bodies
  (`cluster`), and the decisions of the genetic search (`genalg`).
- `app/` is the bevy program around it: positions, masses and forces in `f32`, the ECS
  systems, random initial conditions, and the genome file on disk.
- `tests/` runs the library on concrete values.

The program runs without a window. The window mode (camera, lights, help text, FPS overlay,
keyboard pause and speed controls, meshes and materials of the bodies) needs bevy's rendering
stack (wgpu, winit, text and UI), which this package does not depend on; `--train` runs the
genetic search, and without it the universe is simulated indefinitely.
