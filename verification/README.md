# askey

A terminal player and converter for `.askey` animations: frames of text in which colored
spans are marked up as `{key:text}` (or, in older files, `<s c="key">text</s>`), with a
palette from keys to `#rrggbb` colors. Images and GIFs are converted into such frames.

The library under `src/` is verified with Verus. Its modules:

- `models`: the document, its palette, quantization levels and character-set presets.
- `markup`, `parser`: the span grammar and the rendering of frames into ANSI text with
  their size.
- `storage`: the bytes of a file, gzip-compressed JSON text or plain text.
- `decode`, `converter`: decoding images and GIFs, resizing, and turning pixels into glyph
  grids and their markup, with a table of colors in order of first use.
- `fidelity`, `measure`: proofs that converted frames read back as drawn, in their colors and
  at their size, and measure so on the import screen.
- `screen`, `layout`: placement of frames and messages, popups, the small dashboard texts,
  and removal of escape sequences.
- `ui`, `player`, `catalog`: the decisions of the library, import and playback screens.
- `text`: character-level helpers.

`app/` holds the program around it: the command line, files and folders, the terminal
loop and its drawing, and the floating-point steps of a conversion.
