# image_segmenter

Measures coloured regions in a photograph: an image is split into
4-connected regions of similar colour (flood fill from each unassigned
pixel, colour distance measured from the region's seed), small regions are
dropped, and each remaining region is summarised (pixel count, mean colour,
coordinate sums for the centroid).  Pixels can also be classified by
hue/saturation/brightness ranges.

Layout:

- `src/` – the verified library (Verus).
  - `raster.rs` – RGB image and texture types.
  - `segment.rs` – colour distance, the flood-fill segmentation and its
    specification, region statistics, and how the result changes with the
    minimum region size.
  - `color.rs` – RGB to HSB conversion, colour filters, pixel counts,
    ranking of filters by frequency.
  - `binary32.rs` – integer model of the single-precision operations that
    decide how exact halves round in the HSB conversion.
  - `imaging.rs` – box blur, Sobel edge overlay, region overlay colours.
  - `types.rs` – workflow modes and the calibration steps, units, region
    selection.
- `tests/` – tests of the library.
- `app/` – the egui desktop program: file dialogs, image decoding, textures,
  and the floating-point parts (physical areas, centroids, calibration
  distances, palette colours).
