# sand_tetris

A falling-sand block puzzle. Tetromino pieces are split into 8 × 8 grains per
mino; settled grains slide like sand, and a single-colour cluster of grains that
reaches from the left wall to the right wall is cleared for one point per grain.

- `src/` — the game rules as a verified library (Verus): the board, pieces and
  their movement, locking, sand physics, the wall-to-wall cluster search and
  clearing, spawning and the upcoming-piece queue. Contracts are stated over the
  board as a sequence of cells in row-major order.
- `tests/` — tests of the library on concrete boards.
- `app/` — the Bevy front end: window, input, timers, sprites and UI, which hands
  the library plain values (grid cells, entity ids, key states, microseconds).
