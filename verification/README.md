# fop_verified

Verified pieces of an XSL-FO formatter, written in Verus: the area tree, page breaking,
line breaking, font metrics, embedded fonts and their CMaps, and PDF output. Functions in
`src/` carry contracts that Verus proves; the few that call `ttf-parser`, `png` or std
directly (in `src/ttf.rs`, `src/raster.rs`, `src/textfmt.rs`, `src/to_unicode.rs`) are
trusted wrappers whose contracts state what those libraries document. Of the layout pass
that turns the formatting-object tree into areas, the library holds the page region
geometry, table body layout, the pagination of a single-column flow whose blocks are laid
out, and the extraction of rendering traits from a node's properties; block,
inline, list and float layout are not part of it.

## Layout

- `src/length.rs`, `src/geometry.rs`: lengths in millipoints, points, sizes, rectangles.
- `src/area.rs`: the area tree (an arena of areas with parent and child links).
- `src/page_break.rs`, `src/pagination.rs`, `src/flow.rs`: breaking block areas into
  pages, keep constraints, forced breaks, footnotes, and flow pagination that moves the
  blocks glued to an overflowing block to a fresh page.
- `src/knuth_plass.rs`: Knuth-Plass line breaking of paragraphs: the feasible split of
  least demerits.
- `src/property_list.rs`: the properties of a node (inherited ones taken from the parent
  node when unset) and the rendering traits drawn from them.
- `src/font_metrics.rs`, `src/properties.rs`: widths of the standard PDF fonts, text
  measurement, border-style keywords.
- `src/pdf_font.rs`, `src/ttf.rs`, `src/cidfont.rs`, `src/to_unicode.rs`: embedded
  TrueType fonts (read through `ttf-parser`), subsetting, and the PDF objects and CMaps
  that describe them.
- `src/page_master.rs`, `src/table.rs`: page region geometry from a simple page master, and
  table body layout (cells on a grid with column and row spans, rows and cells as areas).
- `src/page.rs`: the content stream of a page (text, rules, images, clipping) as PDF
  operators, lengths written in points.
- `src/cmap_roundtrip.rs`: proofs that the ToUnicode CMaps written for fonts read back as
  the mappings they were written from.
- `src/minimal_pdf.rs`, `src/simple.rs`, `src/compliance.rs`: a self-contained PDF writer
  for the standard fonts, PDF literal strings, PDF/A and PDF/UA metadata.
- `src/raster.rs`, `src/engine.rs`: rasterized pages and their PNG encoding (through
  `png`), engine configuration.

The laws of the library are public proof functions named `law_*`.

`app/` holds what works in floating point or with the machine: the graphics state and
paths of the rasterizer (through `tiny-skia`), glyph measurements in floating point,
writing PNG files. `tests/` holds the tests.
