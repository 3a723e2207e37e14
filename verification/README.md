# zellij-overview

A board of Zellij sessions, tabs and pins, opened in a floating pane: move
with `hjkl`, jump with `e`, search titles with `s` and press the tip next to
a match, go back with `-`.

## Layout

- `src/` is the verified library (Verus). Every function there has a
  contract, and the properties that span several operations are public
  proof functions (`law_*`).
  - `board.rs`: the board as a mathematical model (`BoardModel`): its cards,
    keys, Flash tips, pruning of dead cache entries.
  - `overview.rs`: `Overview`, the executable board, each method proved
    against the model.
  - `grid.rs`: the card layout (framed, compact, scrolling) and neighbours.
  - `face.rs`: what each card and the footer say, where on the screen they
    are written, and cutting them to width.
  - `ansi.rs`: a painted screen as terminal text.
  - `host.rs`, `scene.rs`: the plugin's side without Zellij, and the line
    scenes that drive it.
  - `cache.rs`, `usage.rs`: the cache files and the usage log.
  - `hints.rs`, `keymap.rs`, `toggle.rs`, `floating_state.rs`,
    `float_size.rs`, `sorting.rs`, `text.rs`, `width.rs`: the smaller rules.
  - `laws.rs`: properties of the board across operations.
- `app/` is the Zellij plugin (`main.rs`), the ratatui painter (`render.rs`,
  `ansi.rs`, `theme.rs`), the scene runner that paints `screen` lines
  (`scene.rs`) and the terminal board (`tui.rs`). It reads and writes files,
  talks to Zellij, and hands the library plain values.
- `tests/` exercises the library through its public interface.
