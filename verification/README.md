# asciify

Converts a photo into ASCII art and renders it as a PNG. The decisions of the
pipeline are a verified library (`src/`); the program around it (`app/`) reads and
writes files and does the floating-point image work.

- `src/cli.rs` — the command line: options, `--crop`, errors (`parse_args`, `parse_crop`).
- `src/text.rs` — character helpers: white space, trimming, splitting, `u32` and
  float-literal grammars as `str::parse` reads them.
- `src/rgba.rs` — cropping decoded RGBA pixels, detecting transparency.
- `src/clahe.rs` — tile histograms, clipping with redistribution, cumulative counts.
- `src/mask.rs` — which background mask applies.
- `src/ascii.rs` — glyph ramp and the glyph grid (resizing through the `image` crate).
- `src/render.rs` — palettes and canvas bounds.
- `src/font.rs` — parsing the font face through `ab_glyph`.
- `src/pipeline.rs` — the order of the stages and the exit code.

The program reads its font from `assets/DejaVuSansMono.ttf` at run time.
