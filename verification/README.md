# voxxelmaxx

The voxel logic of a 3D falling-sand engine, verified with Verus.

- `src/coords.rs`: integer voxel positions, the split of a global position
  into a chunk index and a local position, the chunk buffer layout, and the
  hash-map keys of chunk indices.
- `src/chunk.rs`: local positions of buffer entries; the non-empty voxels of
  a chunk (what a collider is built from).
- `src/grid.rs`: `Grid`, the chunked voxel store: `add_chunk`, `get`, `set`,
  dirty tracking and `take_dirty`.
- `src/mesh.rs`: face-culled chunk meshes, looking across chunk seams, and
  the per-chunk rebuild step.
- `src/procgen.rs`: reading voxel tags out of a terrain generation map.
- `src/laws.rs`: properties that span operations: read-after-write, writes
  that change nothing, and that the chunks a write or a chunk load leaves
  clean keep a valid mesh.
- `app/`: the Bevy/Avian side: ECS components and systems, float geometry,
  colours, noise, input.
