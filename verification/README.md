# board_games

Rules of board games on square grids (tic-tac-toe, gomoku, n-in-a-row, reversi),
with the grid machinery they rest on, written in Verus and proved against their
contracts.

- `src/utils/bitarray`: fixed-size bit arrays that hold one bit per cell.
- `src/utils/grids`: strides, positions, directions, strips, runs of cells and the
  symmetries of a grid (the symmetry table and its inverses).
- `src/rulesets`: the game interface and the rule sets: connect games, the
  tic-tac-toe rules, gomoku, n-in-a-row and reversi, with their ply, symmetry and
  permutation iterators.
- `src/tools`: ply iterators over a state (plain, or up to the symmetries that fix
  the state) and the turn step of a game.
- `app/`: ordinary Rust around the library: serialisable copies of plies and
  states, text pictures, and game loops driven by agents.
- `tests/`: the tests of the library.
