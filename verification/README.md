# game2048

The rules of 2048 on a 4x4 board, verified with Verus, and a terminal game
around them.

- `src/sliding.rs`: one row of four 4-bit tiles packed in a `u16`, and how a
  row slides to the right (merging equal neighbours once, from the right),
  with the points it earns.
- `src/board.rs`: the board, 16 tiles packed in a `u64`; reading and setting
  tiles, transposing, sliding in the four directions, the empty-tile mask,
  the largest tile, and whether any move is left.
- `src/board_laws.rs`: what holds of every board: transposing twice, left
  as mirrored right and up/down as transposed left/right, the
  total tile value kept by a slide, and exactly when no slide is possible
  (an empty board, or a full one without equal neighbours).
- `src/game.rs`: a game with a score and a seeded random generator (`rand`)
  that places a 2 or a 4 on an empty tile after each move.
- `src/controls.rs`: which key does what.
- `app/`: the terminal front end (`ratatui`, `crossterm`, `color-eyre`) and
  the debug log of a game.
