# scop

A small viewer for Wavefront OBJ models with a PPM texture, drawn with glium.

- `src/` is the verified library (Verus):
  - `text` — lines, ASCII and Unicode whitespace words, unsigned decimal numbers;
  - `obj` — the `v ` and `f ` lines of a model, its triangle index list and the
    checks that accept or refuse it;
  - `ppm` — decoding a binary `P6` texture;
  - `controls` — the keyboard switches and the rotation turns;
  - `error` — the errors and their messages.
- `app/` is the viewer itself: files, window, events, drawing and all
  floating-point work (vertex positions, texture coordinates, matrices).
- `tests/` runs the library on concrete inputs.

Usage: `scop obj_path texture_path [box || sphere]`.
