# atx_core

Transform recipes for images: their types, their checks, their canonical text and hash, and the
deterministic decisions and pixel arithmetic of the engine that runs them. The library is written
in Verus; every function of `src/` is verified against its contract, but for the calls named under
"What is trusted".

## Layout

- `src/recipe.rs`, `src/canonical.rs`, `src/json.rs`, `src/number.rs`: recipes, what is wrong with
  them, and their canonical form.
- `src/float.rs`, `src/binary.rs`: binary32 and binary64 arithmetic over bit patterns, with the
  rounding of IEEE 754. The pixel arithmetic is stated and run on it, so that every machine gives
  the same bytes.
- `src/raster.rs`, `src/linear.rs`, `src/transform.rs`, `src/resize.rs`, `src/rotate.rs`,
  `src/pixel_ops.rs`, `src/adjust.rs` and `src/ops/`: images, mappings and operations.
- `src/input.rs`, `src/codec.rs`, `src/engine.rs`, `src/pipeline.rs`, `src/effects.rs`: what is read
  and written, and the steps from a recipe and a file to the encoded result.
- `src/similarity.rs`, `src/stats.rs`: hashes, structural similarity and statistics of images.
- `src/exact.rs`, `src/units.rs`, `src/wholes.rs`, `src/spans.rs`, `src/value.rs`,
  `src/nearness.rs` and the modules that build on them: when the arithmetic is exact, and how far it
  is from the real numbers where it is not.
- `src/repeat.rs`, `src/whole_run.rs`, `src/local.rs`, `src/kept.rs`, `src/round_trip.rs`,
  `src/sameness.rs`, `src/affine.rs`, `src/at_rest.rs`, `src/in_box.rs`, `src/agreement.rs`,
  `src/percentiles.rs`, `src/separate.rs`, `src/curve_points.rs`, `src/curve_rises.rs`,
  `src/hue_trip.rs`, `src/gain.rs`, `src/horizon.rs`, `src/same_size.rs`, `src/plain_levels.rs`,
  `src/plain_rows.rs`: laws of the library as a whole.
- `app/`: threads, tables of transcendental functions, drawing of vector images and warping of
  pixels, serialisation, and the loop that runs a recipe.
- `tests/`: tests on concrete images and recipes.

## What is trusted

Decoders, encoders, the hash function, the reader of fonts and XML, and the shortest decimal text
of a number come from outside. Each such call stands in a small function marked
`external_body`, whose comment says what is claimed of it.
