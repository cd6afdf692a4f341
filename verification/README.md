# oxtail

A tail for NDJSON logs with a terminal UI. Lines that parse as JSON objects or
arrays are rendered colorized; anything else shows as plain text. Display rules
(`{a.b.c}` templates chosen by the first matching rule) turn records into
one-liners, and a path report summarizes the structure of a stream.

## Layout

- `src/` is the library, verified with Verus: the JSON model and path lookup
  (`json`), templates (`format`), display rules (`config`), the structure report
  (`paths`, with `strmap`, `rank`, `lex`, and `presence`, which prints a path's
  presence exactly as the double quotient would), the expanded record view (`detail`),
  the viewer state (`app`), key handling (`keys`), the pieces a screen is drawn
  from (`ui`), and the reader's line cleanup and pacing (`reader`).
- `app/` is the terminal program around it: argument parsing, reading a file
  (gzip too) or stdin on a thread, the event loop, drawing with ratatui, and
  loading a rules file.
- `tests/` exercises the library on concrete inputs.
