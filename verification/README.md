# isometric_stanford

Verified core of an isometric campus map pipeline, written in Verus. Every function in
`src/` carries a `requires`/`ensures` contract that Verus proves; the few calls into outside
crates (SHA-256, PNG, TIFF and WebP codecs) sit behind small trusted wrappers whose contracts
name what those crates return.

## Layout

- `src/primitives.rs`, `src/geometry.rs`, `src/heap.rs`: rasters, morphology, distance
  transforms, gradients, connected components, hysteresis and the watershed priority flood.
- `src/mask.rs`: semantic mask artifacts and their validation.
- `src/reference.rs`, `src/overlap.rs`, `src/atlas.rs`: registered reference captures, the
  deterministic PNG encoder, overlap comparison and reference atlases.
- `src/review.rs`, `src/stylize_image.rs`: the reference repair study, its candidates,
  measurements and review report.
- `src/render.rs`, `src/raster.rs`, `src/scene.rs`, `src/style.rs`: scene triangles, the
  canonical rasterizer and the style pack.
- `src/perception.rs`, `src/source.rs`, `src/publish.rs`: evidence grids, source caches and
  DZI release assembly.
- `src/digest.rs`, `src/text.rs`: hashing and small text utilities.
- `tests/`: executable tests against the compiled library.
- `app/`: the command-line edge, which reads and writes files and hands the library plain
  values.
