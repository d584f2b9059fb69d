# fabbula

DRC-aware conversion of images into GDSII artwork for the top metal layers
of integrated circuits.

- `src/` is the verified library. The bitmap (`artwork`), the rectangle
  generation strategies (`polygon`), exclusion masks (`mask`), density
  enforcement (`density`) and the density feedback loop (`generation`), the
  design-rule checks (`drc`), text and QR overlays (`text`, `qr`), colour
  channel extraction (`color`), tile-pyramid arithmetic (`tiles`), layout
  placement helpers (`layout`), GDS boundaries (`gds`), the command line
  parsers (`cli`) and the commit message conventions (`lint`) carry
  contracts that Verus proves. The main laws: generated rectangles are clean
  for the width and spacing rules by construction
  (`generation::law_generation_drc_clean`), the pixel and row strategies
  cover the metal pixels exactly and without overlap
  (`polygon::law_pixel_rects`, `polygon::law_row_merged_rects`), and a
  capped check reports a prefix of the uncapped one when both work through
  the same listing of spacing candidates (`drc::law_capped_is_prefix`).
- `app/` is the command line program: image decoding and SVG
  rasterization, k-means palettes, PDK configuration files, GDSII, LEF, SVG
  and HTML output, and the deep-zoom tile renderer.
- `tests/` exercises the library on concrete values.
