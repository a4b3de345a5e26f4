# ferrocad

Parametric 2D sketches and 3D solids in Rust, exported to STL and 3MF.

The crate is split in two:

- `src/` is the verified library. Lengths are whole micrometers, so the
  geometry it holds is exact integer arithmetic: polygon contours, ear
  clipping, convex hulls, the topology of every tessellated primitive (which
  vertex each triangle uses, and that the faces close up), colors, models,
  and the 3MF document with its package parts. Every function states its
  result in `requires` / `ensures`, and the laws that tie functions together
  are proof functions (`lemma_*`).
- `app/` is ordinary Rust around it: coordinates in millimeters as `f64`,
  circle and sphere points, affine poses, CSG through Manifold, and the STL
  and 3MF writers.

`tests/` exercises the library on concrete values.
