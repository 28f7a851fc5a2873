# raytrace

A ray tracer whose integer and combinatorial core is a library verified with
Verus, and whose floating-point shading, geometry and I/O form the program
around it.

- `src/` is the verified library: axes and ray kinds, which faces of a
  material a ray sees, the decisions of the k-d tree construction (node
  start, surface-area sweep counts, split partition, refinement budget,
  joining subtrees, assembling the surface-area tree from the split plans
  the program chooses, the random-split build), the accelerator that keeps the
  tree consistent with its objects, pixel render order and RGBA/ARGB
  encoding, clamped texel lookup, mesh face assembly and the camera field
  rules of a scene description.
- `app/` is the program: command-line handling, scene and asset loading,
  intersection and shading in floating point, the surface-area cost that
  chooses each split, and output to a window or an image file.
- `tests/` runs the library on concrete values.
