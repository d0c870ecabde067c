# kerf

An intermediate representation for the mesh → G-code half of 3D printing, with a denotational
semantics (`denote`: the material a program deposits, as raster occupancy) and operations whose
preservation of that meaning is proved with Verus.

## Layout

- `src/` — the verified library.
  - `ir` (points, polylines, the `hi` region level and the `lo` move plan), `lower` (`hi → lo`).
  - `coverage`, `raster`, `wide` — the exact integer cell-coverage predicate and the rasterizer.
  - `denote` — occupancy, per-cell deposit counts and fingerprints; `incremental` re-denotes only
    dirty layers.
  - `pass` (travel-order pass), `transform` (editing actions), `metamorphic` (translation),
    `voxel`, `analyze`, `feature`, `diff`, `hash`, `fnv`.
  - `frontend` — the G-code parser, with G2/G3 arc flattening.
  - `verify`, `render` — the verification report and PNG rendering of occupancy and diffs.
  - `queue`, `store`, `ingest`, `engine`, `worker`, `api`, `schema`, `digest` — the verification
    service's job queue, content-addressed store with a per-tenant result chain, and glue.
- `app/` — the command-line program, JSON I/O, directory scanning, and the floating-point
  measures (volume, commanded flow, print time, printability, feature rows, rotation bounds).
- `tests/` — executable tests of the library.

## Proved properties

Among others: reversing paths, translating by whole cells, lowering `hi → lo`, and reordering or
reversing toolpaths (the travel-order pass, the preserving editing actions) leave the denotation
unchanged; the parser's report is well formed for every input; the incremental cache agrees with a
full re-denotation; the queue and store keep their lease, retry and append-only-chain semantics.
