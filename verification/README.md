# life_tui

A cellular automaton in the style of Conway's Game of Life on an unbounded
grid, with a terminal front end. The library in `src/` is verified with
Verus; `app/` is the terminal program around it.

## Layout

- `src/chunk.rs`, `src/geometry.rs` — 32x32 bit-mask chunks and the mapping
  between cell coordinates, chunk coordinates and map keys.
- `src/world.rs` — the sparse world: cells, one step of the rule (the chunks
  are computed in parallel with rayon), drawing at zoom level 1 and in
  braille when zoomed out. Its view is the set of live cells.
- `src/camera.rs` — the camera: position, zoom, the pause between moves, and
  the mapping between world cells and screen cells.
- `src/input.rs`, `src/keys.rs` — terminal events as plain values, and key
  names that are the same for the Latin and the Russian layout.
- `src/strmap.rs`, `src/settings.rs` — the settings: key bindings, rules and
  speed, their defaults and the rows of the CSV files.
- `src/widgets.rs`, `src/settings_screen.rs` — the widgets of the settings
  screen and the focus navigation between them.
- `src/simulation.rs` — the simulation screen: actions bound to keys, mouse
  editing, speed and the timing of steps.
- `src/terminal/` — a simpler front end that prints straight to the
  terminal, with its own fixed-rule world.
- `app/` — `main`, file I/O, dialogs, event conversion and rendering with
  ratatui and crossterm.
