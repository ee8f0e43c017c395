# wlr_randr_tui

A terminal UI for configuring the outputs of wlroots-based Wayland compositors
through `wlr-randr`, written as a Verus-verified library and a thin ncurses
program around it.

- `src/` — the library, verified with Verus:
  - `text`, `decimal`: characters, trimming, splitting, lines, and decimal
    numbers read and written exactly (scales and refresh rates are kept in
    millionths);
  - `scale`: numbers written with a power of ten (`25e-2`), read as
    millionths, and a scale typed by the user in every form a floating-point
    number takes (an infinity and not a number too), checked against the
    accepted range before it is rounded;
  - `monitor`: outputs, modes, pending settings, placements and how a
    relative placement resolves to layout coordinates;
  - `proj`: the projection presets;
  - `parse`: reading `wlr-randr`'s report;
  - `apply`: the `wlr-randr` command line that applies the pending settings;
  - `app`, `input`: the interface state and what each key does;
  - `ui`: the whole screen, as texts with their rows, columns and styles;
  - `diagram`: the layout diagram, each output's box scaled to fit the
    free part of the screen;
  - `laws`: properties that span several functions.
- `app/main.rs` — runs `wlr-randr`, prints the screen with ncurses and loops
  over keys.
- `tests/` — tests of the library on concrete values.
