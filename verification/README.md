# diffany

A small terminal text editor. The library in `src/` holds everything the
editor decides, verified with Verus:

- `text`: the UTF-8 view of strings (byte lengths, character boundaries) and
  the byte-offset operations of `String`.
- `raw`: one line of text, its drawing with tabs expanded to tab stops, the
  digit highlights, and the conversions between character positions and
  drawn columns.
- `fmt`: decimal numbers and padding for the status bar.
- `keyboard`: key presses as values.
- `screen`: what is drawn: text lines, the welcome line, the status bar.
- `editor`: the editor state and what every key does to it, loading and
  saving text, prompts, and the checks that a key or a redraw can be handled.

`app/` is the program around it: raw terminal mode, reading keys, printing
frames, reading and writing files.
