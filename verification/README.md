# malevich

Terminal plotting: a cell grid of glyphs and colors, exact-decimal axis
labels, calendar bucketing, and encoders for ANSI text, HTML and SVG.

The library under `src/` is written in Verus. Every function carries a
contract over a mathematical model of its data, and Verus proves the code
against it: the cell grid keeps wide glyphs paired and the last write of a
cell wins, colors only ever resolve downhill to what a tier can carry,
decimal labels read back exactly to the values they name, and calendar
buckets are of their true length and hold exactly the times inside them.

- `src/` — the verified library: charsets and the surface (`surface`,
  `charset`, `width`, `text`), colors and tiers (`color`, `palette`), the
  encoders (`raster`, `html`, `svg`), axis labels (`format`, `ticks`,
  `unit`, `scale`), the calendar (`calendar`), options (`stack`) and the
  resource limits (`limits`, `error`).
- `tests/` — tests of the library on concrete values.
- `app/` — the floating-point side (perceptual color distance, tick search,
  statistics, colormaps, plot-area marks) and the serde forms of the
  library's types, in ordinary Rust on top of the library.
