# macchina_render

The rendering core of a system-information tool that prints readouts next to ASCII art
or an image, verified with Verus.

- `src/buffer.rs` — reading the cell buffer back: the last non-empty cell, the width of the
  text, how much of the console the output takes, and which cells are sent to the terminal
  (wide symbols, the terminal's width, the image area left blank).
- `src/kitty.rs` — Kitty-protocol detection, cleaning and placing chafa's output, and the
  Kitty graphics messages that carry a PNG in pieces of 4096 base64 bytes.
- `src/layout.rs` — where the art or image and the readouts go.
- `src/escape.rs` — escape sequences as bytes; `src/version.rs` — the version text.
- `src/terminal.rs` — the ratatui and unicode-width items the library reads, with the
  contracts they are trusted to meet.
- `app/` — terminal, environment, process and file I/O around the library.
