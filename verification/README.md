# qrkit

Verified building blocks of a QR-code scanner, written in Verus.

- `src/` — the library. Every function carries a `requires`/`ensures`
  contract proved by Verus: grayscale image views and conversions, tile
  thresholds and Sauvola binarization, resampling kernels, morphology and
  background division, directional restoration, finder-pattern run
  matching and cross-checks, version information (BCH decoding, timing
  checks), alignment-pattern coordinates, decode arbitration, bit matrices
  and QR generation. Decoding and encoding go through the `rqrr` and
  `qrcode` crates behind small trusted wrappers in `bitmatrix.rs` and
  `qrgen.rs`.
- `tests/` — executable tests of the library.
- `app/` — the unverified remainder, each piece floating point or plumbing:
  perspective transforms and bilinear sampling, general resizing, the
  blur-direction estimate and edge-rise measurement, finder-candidate
  merging, the real-valued Sauvola base, stage timing, serde copies of the
  trace types and the wasm binding. The scan pipeline that would drive
  these (triplet grouping, grid sampling, corner refinement and a scanner
  facade) is not part of this crate.
