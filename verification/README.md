# InkWordle

A handwritten Wordle for the reMarkable Paper Pro: each letter is written by
hand into the grid and read by an on-device recognizer.

- `src/` is the verified library (Verus): word lists and scoring, the game
  and its per-letter tracker, answer picking, the session's decisions on pen
  samples, taps and submitted rows, the evdev pen and multi-touch decoders,
  the ink planes fed to the recognizer, the drawing surface and board layout.
- `app/` is the program around it: device and framebuffer I/O, text
  rendering with ab_glyph, and the tract recognizer, which work in floating
  point.
- `tests/` exercises the library.

Assets read beside the executable: `answers.txt`, `valid.txt`,
`definitions.tsv`, `ui-font.ttf`, `title-font.ttf` and the ONNX models.
