# engine

The integer core of a cubesphere planet renderer, verified with Verus.

A planet is drawn as a set of patches: quarters, sixteenths, ... of the six
faces of a cube blown up onto a sphere. Which patches are drawn, how the levels
of neighbours are brought within one of each other, how a patch's edges are
stitched to a coarser neighbour, where its geometry lives in the GPU cache and
what file a model mesh is stored in are all integer logic, and that is what
`src/` holds and proves:

- `cubesphere` -- patch topology: parents, children, neighbours across face
  edges, halo nodes, the stitched index sets.
- `lod` -- level selection driven by an error criterion, balancing to one
  level between neighbours, stitching masks.
- `cull` -- counting what is drawn.
- `frame` -- the patch geometry cache: slots, eviction, capacity.
- `mesh` -- the cooked mesh file format, writer and reader.
- `shot` -- frames in memory, read-back padding, PNG encoding.
- `ship` -- the triangles of the placeholder ship's hull.
- `cli`, `app`, `camera_probe`, `scene`, `demo`, `perf_probe` -- small pieces
  around them.

`app/` is the program around the library: argument handling, file output and
the floating-point geometry (camera, vertex positions, screen-space error,
horizon and frustum tests), which the verifier does not reason about.

`tests/` runs the library on concrete values.
