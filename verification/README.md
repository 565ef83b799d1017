# calamus

Parsing and rendering of Supernote `.note` notebooks, with the parsing,
decoding and layout logic verified in Verus.

- `src/` — the verified library:
  - `format/` — the container: file signature, length-prefixed blocks,
    `<KEY:VALUE>` metadata, footer/header/page/layer tables (`mod.rs`,
    `metadata.rs`), the RATTA_RLE bitmap codec (`rle.rs`), the TOTALPATH
    stroke records and text boxes (`stroke.rs`) and the layout of a written
    stroke record (`record_layout.rs`);
  - `bitmap.rs` — compositing the layer bitmaps of a page onto a canvas;
  - `split.rs` — finding hand-drawn rectangles and assigning strokes and
    text boxes to them;
  - `render.rs` — the decisions of SVG output: layer groups, eraser masks,
    colours, fonts, XML escaping;
  - `naming.rs` — output file names;
  - `text.rs`, `bytes.rs`, `error.rs` — string, byte and error helpers.
  Each module states its laws as `law_*` proof functions next to the code
  they are about.
- `app/` — the command-line tool and the browser entry points: file I/O,
  PNG output, and the floating-point stroke geometry of SVG output.
- `tests/` — tests of the library on concrete inputs.
