# xuzzel

An X11 application launcher and dmenu-style picker.  The launcher reads
freedesktop `.desktop` files (or lines from standard input in dmenu mode),
ranks them against what is typed, and starts the chosen program or prints
the chosen line.

## Layout

- `src/` is the library, written in Verus: every function carries a
  contract and is proved against it, except the few small functions marked
  `#[verifier::external_body]` that call into std, `shlex`, `which` or `image`;
  their contracts are trusted, not proved.
  - `text` — characters, lines, splitting, decimal and hex numbers.
  - `config`, `cli` — the settings, their textual values, and how
    command-line options override them.
  - `model` — entries, search texts, match results, icons.
  - `desktop` — reading desktop files and dmenu input into entries.
  - `matcher`, `sort` — scoring entries against a query and ranking them.
  - `history` — launch counts and their text form.
  - `runner` — turning a chosen entry into a program to start.
  - `session` — the decisions of the window loop: input events, selection,
    scrolling, submitting.
  - `icon` — which decoder an icon file needs, and decoding raster icons.
  - `paint` — what a frame draws, the window's geometry and shape, icon
    pixels.
- `app/` is the program around the library: argument parsing, the settings
  file, the disk, standard input, Xlib, Cairo and Pango, and the loop that
  carries out what the library decides.
- `tests/` runs the library on concrete values.
