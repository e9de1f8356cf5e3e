# praca_magisterska

Voxel world storage structures and chunk bookkeeping, with their behaviour
stated in `requires` / `ensures` contracts and proved by Verus.

- `src/structure_tests/`: the voxel stores — an octree that folds a branch of
  eight equal leaves into one leaf (the merging of empty parts is part of its
  type invariant; filled leaves merge when they hold the same `Rc`, which the
  contracts do not track), a flat voxel map, a voxel list, a hash map keyed by cell — and the
  datasets and index helpers that exercise them; `octree/flood.rs` walks the
  empty leaves of an octree from a start cell and collects the voxel sides it
  runs into.
- `src/world/`: chunks and blocks, the voxel dataset registries, the chunk
  mesher (`WorldChunk::remesh`), the walk over growing cube shells of chunks
  (`ChunkRegionIterator`) and the chunk-loader bookkeeping.
- `src/chunks_generators/`: chunk generators, voxel creation and the draws of
  distinct random numbers (through `rand`).
- `src/noise/`: the permutation table of the simplex noise.
- `app/`: a console front end: floating-point colors and noise, the
  float-positioned sides handed to a renderer, printing and timing.
- `tests/`: tests run against the compiled library.
