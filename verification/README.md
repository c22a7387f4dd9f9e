# doc_quad

Detection of a document's quadrilateral in a grey-scale (luminance) image,
verified with Verus.

Pipeline: row-padded buffer → compact pixels → histogram-based Canny
threshold strategy → Canny (`fast-canny`) → morphological closing → contour
tracing (8-neighbour chain) → prefilter → Visvalingam–Whyatt reduction to four
vertices → strict-convexity check → corner ordering → largest quadrilateral.

Layout:

- `src/` — the verified library.
  - `memory/buffer.rs` — `DocBuffer`, layout checks, compaction.
  - `edge/morphology.rs` — dilation, erosion, closing, with their laws.
  - `edge/threshold.rs` — histogram, percentiles, median, threshold strategy.
  - `edge/detector.rs` — `EdgeDetector` around `fast-canny`.
  - `topology/` — chain-code neighbour search and contour tracing.
  - `geom/` — integer points, simplification, validation, corner ordering.
  - `document.rs` — contour filters and selection of the document.
- `app/` — the float stages (threshold values, bilinear downsampling, scaling
  back to the input resolution), `ndarray` views, debug PGM files, logging.
- `tests/` — tests of the library.

The geometry works on integer pixel coordinates and is exact; areas are
returned doubled so that they stay integral.
