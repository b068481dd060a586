# algraf-render

The rendering core of a declarative chart language: SVG and draw-list
emission, interaction metadata, colour handling, image asset sniffing,
temporal axis ticks, calendar histogram bins and a few derived-table
transforms. The library under `src/` is written in Verus; every function in
it carries a contract that Verus proves, except the few trusted wrappers
(marked `#[verifier::external_body]`) around calls into `std` and `chrono`:
Verus takes their contracts as given, and each one's doc comment names the
outside function and says what its contract claims of it.

Numbers that reach SVG or JSON text are held as integer thousandths (the
SVG number format keeps three decimals), instants as microseconds since the
Unix epoch.

## Layout

- `src/svg.rs`, `src/number.rs`: the indenting SVG writer, XML escaping and
  the number format.
- `src/sink.rs`, `src/draw_list.rs`, `src/metadata.rs`: the mark sinks that
  write canonical SVG or record draw ops, the draw-list JSON and the
  interaction metadata JSON.
- `src/color.rs`, `src/theme.rs`, `src/raster.rs`: palettes and colour
  parsing.
- `src/assets.rs`: image sources, MIME types, PNG/GIF/JPEG header sizes,
  base64 data URLs and SVG size attributes.
- `src/calendar.rs`: the Gregorian calendar of instants, through `chrono`.
- `src/temporal.rs`: temporal tick planning (calendar ladders, explicit
  intervals, promotion over the tick budget) and label formatting.
- `src/temporal_bins.rs`: calendar histogram bins.
- `src/stats.rs`, `src/steps.rs`, `src/categories.rs`, `src/rows.rs`,
  `src/row_match.rs`: transform options, step vertices, categorical domains
  and count tables, row unions and key matching between tables.
- `src/path_data.rs`: splitting SVG path data into commands.
- `app/`: the floating-point, file-reading and rasterizing code around the
  library (scales and nice ticks, densities, smooths, numeric binning, the
  `tiny-skia` rasterizer, image loading).
- `tests/`: tests of the library.
