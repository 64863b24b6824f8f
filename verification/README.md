# pbr

Building blocks of a physically based renderer, written in Verus and proved
against their contracts.

- `bvh`: a bounding volume hierarchy over primitives, split by the surface
  area heuristic or at the middle of the centroid extent (equal-count
  splitting is not implemented), flattened depth first, and its traversal:
  an any-hit query, and a nearest-hit query that carries the ray's distance
  limit as an integer and narrows it at each hit.
- `mesh`: triangle meshes over shared vertex arrays, held in a BVH.
- `sampler`: the (0, 2)-sequence sampler: Gray-code generation of van der
  Corput and Sobol points, stratified shuffling, and the per-pixel sample
  bookkeeping. Samples are 32-bit fixed-point fractions of one.
- `rng`: the PCG32 generator.
- `bounds`, `vector`, `matrix`: integer geometry (bounding boxes, vectors,
  4x4 matrices) with exact arithmetic.
- `bxdf`: BxDF kind flags, kept in `BxDFSet`, a bit-mask set in place of
  the `enum_set` crate's `EnumSet` (which would need an `unsafe` impl of its
  `CLike` trait for the flag type).
- `material`, `texture`, `integrator`, `render_target`, `utils`, `maths`:
  materials, textures, integrator settings, the render target and small
  numeric helpers.

`app/` holds the command-line program, the reconstruction filter, the
floating-point faces of library values (samples as `f32` fractions, `f32`
vector helpers), the `f32` matrix inverses, and OBJ mesh loading (which asks
the library which models to keep). The other floating-point rendering stages
(path integration, film accumulation, image textures and the render threads)
are not part of this crate.
