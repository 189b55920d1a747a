# world

The voxel world of a colony game: chunks of blocks split into slabs of 32 slices, the
navigation areas found on each slice, the graph that links those areas across slabs and
chunks, and what the player's viewer asks to be loaded and drawn. The library is written in
Verus: each function states what it does in `requires` / `ensures`, and Verus proves it.

## Layout

- `src/coordinate`, `src/grid.rs`, `src/range.rs`, `src/slab.rs`: positions of blocks, slices,
  slabs and chunks, and the conversions between them.
- `src/chunk`: per-slab data. `vertical_space` finds the free height above each block,
  `slice_navmesh` turns those heights into rectangular navigation areas, `slab` discovers the
  areas of a slab and the edges between them, `pair_walking` pairs the border blocks of two
  neighbouring chunks with their neighbours across the border, `affected_neighbours` finds the
  slabs an update reaches, `terrain` holds a chunk's blocks slab by slab and writes blocks and
  slab updates into them, and `chunk` keeps a chunk's areas and the loading
  progress of its slabs.
- `src/navigationv2.rs` and `src/navigationv2/world_graph.rs`: areas and edges, and the
  graph of the whole loaded world, kept in a `petgraph` stable graph behind a few trusted
  wrappers whose contracts describe that crate's behaviour.
- `src/navigationv2/search.rs`: the decisions of a path search, as a state machine driven
  by the caller.
- `src/navigation.rs`: the block-level navigation graph of a single chunk, in a `petgraph`
  graph.
- `src/loader`: batching of slab loads, splitting terrain updates by slab and deciding which
  are applied, kept or dropped, a slab's occlusion from its own blocks and the write-back of
  changes to it, linking a newly loaded slab to its neighbours in the world graph, and the
  stages of a slab's load task.
- `src/occlusion.rs`, `src/mesh.rs`: ambient occlusion of block faces and the collision mesh
  of a slice.
- `src/viewer.rs`: the slices and chunks in view, which slab meshes are out of date, and the
  slab requests handed to the loader, each slab once.
- `src/world.rs`: the loaded chunks, kept sorted, and lookups of chunks and areas.
- `app/`: what works in floating point or with locks, and the loops that run the load task,
  the path search and a tick's terrain edits: world points, vertex shading, path end
  points, edge costs, mesh regeneration glue and the shared world reference.
- `tests/`: the library's tests.
