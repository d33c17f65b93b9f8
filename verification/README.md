# pixel_planner

A move planner for a hexagonal pixel board (eleven rows, six cells on even
rows and seven on odd rows, one 4-bit group per cell in a `u32` per row).

- `src/` is the library, verified with Verus:
  - `board.rs`: the board, dropping a pixel on a column, building boards;
  - `rules.rs`: where a pixel may go, the supply of pixels, and the mosaic rule;
  - `score.rs`: the score of a board;
  - `search.rs`: the depth-limited search over moves and the choice of a move;
  - `laws.rs`: properties that hold across these functions;
  - `nibbles.rs`: facts about 4-bit groups of words, proved by bit-vector reasoning.
- `app/main.rs` plays a game and prints the board in color.
- `tests/` runs the library on concrete boards.
