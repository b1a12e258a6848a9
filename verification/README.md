# conv_core

A format-conversion hub: a registry of converters between formats, raster codecs (BMP, QOI,
PNG, ICO, lossless WebP, baseline JPEG), and unit conversions, with WebAssembly bindings.

## Layout

- `src/` — the library, verified with Verus. Every public function states what it returns in
  its contract. The laws of the library are public proof functions: the round trips of zlib,
  PNG, QOI, BMP, ICO and WebP files, of VP8L image streams and of JPEG's entropy-coded blocks
  and scans; readers reading back what writers write; the order in which the registry is
  consulted. The JPEG pixel round trip is not among them: its DCT and color conversion work in
  floating point and live in `app/`.
  - `registry.rs`, `lib.rs`: the registry and `convert_with`.
  - `formats/image/`: the codecs. `zlib.rs` (inflate, stored deflate, Adler-32), `png.rs`,
    `qoi.rs`, `bmp.rs`, `ico.rs`, `vp8l.rs` and `webp.rs` (lossless WebP), `vp8l_laws.rs`
    (what the lossless WebP decoder reads back of what its encoder writes), `jpeg.rs` (the
    integer core of baseline JPEG: segments, Huffman tables, entropy-coded blocks),
    `converter.rs` (dispatch between them).
  - `formats/units/`: request parsing and the choice of conversion model.
  - `bindings.rs`: format ids and the cancel token the bindings hand to JavaScript.
- `app/` — ordinary Rust around the library: the `wasm-bindgen` bindings, the process-wide
  default registry, and the stages that work in floating point (JPEG's DCT, chroma sampling and
  color conversion; unit arithmetic).
- `tests/` — tests of the library through its public interface.
