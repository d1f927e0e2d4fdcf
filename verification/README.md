# tetris

The rules of a small Tetris game, verified with Verus, and the bevy program
that plays it.

- `src/components.rs`: the field (`Grid`, rows from the bottom), the falling
  block (`Block`: a 4x4 mask, its kind and position), creation, rotation,
  moves and the cells a move would cover; laws on the starting masks,
  rotations and covered cells.
- `src/systems.rs`: one game tick (create, fall, or lock into the field), the
  key handling (drop, rotate, step), the line check, and what each visible
  cell shows; laws on moves, drops and cleared lines.
- `src/grid.rs`: the flat field with hidden rows and its own line check.
- `src/blocks.rs`: an older block model (transpose-and-reverse rotation,
  row clearing, the left-wall test against the flat field).
- `src/chance.rs`: the one call into `rand`.
- `app/`: the bevy program: window, timer, keyboard, entities and drawing.
