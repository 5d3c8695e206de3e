# tracear_core

The integer core of a planar image tracker (FAST corners, steered BRIEF
descriptors, Hamming matching, a compiled-marker file format and a
multi-marker detection scheduler), written in Verus with machine-checked
contracts.

Layout:

- `src/` — the verified library.
  - `image.rs`: grayscale images, 2x2 downsampling, box blur (proved equal to
    the naive windowed sum), area reduction, pyramids, RGBA to gray.
  - `fast.rs`: FAST-9 with SAD score and 3x3 non-maximum suppression.
  - `keypoint.rs`: grid-bucketed top-K corner selection.
  - `orientation.rs`, `brief.rs`: intensity moments of the orientation patch
    and packing of the 256 descriptor comparisons.
  - `matcher.rs`: Hamming distance, nearest / second-nearest search, one
    match per marker feature.
  - `marker.rs`: the `.tracear` single-marker format and the pack container,
    with round-trip and rejection laws.
  - `pipeline.rs`, `tracker.rs`: which lost markers may spend a detection
    attempt on a frame (budget, free slots, priority window, round robin,
    cadence), and the tracker's fallback pass.
  - `rng.rs`, `synthetic.rs`: the seeded xorshift generator and the
    deterministic test texture.
- `tests/` — executable tests of the library.
- `app/` — ordinary Rust around the library: everything that runs on floating
  point (bilinear sampling, warps, homography estimation, the sub-pixel
  tracker, pose estimation and filtering, the marker compiler), the per-frame
  loop and session, and the WASM bindings.
