# vyges-layout

A layout geometry kernel, verified with Verus: rectilinear boolean operations, contour
tracing, edge checks, region sizing, a spatial index, connectivity (net) tracing,
hierarchy flattening, and the GDSII and OASIS byte formats.

Layout:

- `src/` — the verified library. Each public function states in `requires`/`ensures`
  what it computes, over spec functions and views; laws that relate several functions
  are public proof functions (`lemma_*`).
  - `geom`, `spans`, `coverage`, `sort` — rectangles, interval lists and the counting
    model (how many times each unit cell is covered) the geometry contracts are stated in.
  - `boolean`, `contour`, `edges`, `sizing`, `index` — the geometry engines.
  - `connect` — same-layer components and nets joined through cut (via) layers.
  - `gds`, `oasis`, `oasis_read`, `oasis_write` — GDSII read/write, the OASIS codec, reader and writer
    (CBLOCK payloads are inflated by `miniz_oxide`).
  - `flatten` — which elements a hierarchy expands to, with their placements.
  - `engine` — the `boolean` verb and the built-in demo.
  - `render` — the calendar year, SVG escaping and colours, and the PNG container.
- `app/` — the command-line program and what needs floating point or the file system:
  loading and saving files, unit conversion, transform composition for `flatten`,
  `info` reports, the OASIS writer's unit and placement forms (floating point), SVG scenes.
- `tests/` — tests of the library.
