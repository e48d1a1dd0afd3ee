# hexlog

The rules of a turn-based game played on a board of hexagonal tiles, written
in Verus: every function of the library carries a contract, and Verus proves
that the code meets it.

- `src/` is the library. Its modules: `tiles` (the board, adjacency and tile
  selection), `actions` (what an action does and how many tiles it takes),
  `eligibility` (which tiles may be selected next), `execution` (checking and
  carrying out an action), `pieces`, `players` (turn order, orders per turn,
  deaths and the end of the game), `cards`, `shop`, `refresh_groups`, `setup`
  and `input`. Random choices for the shop go through `rand`, behind the
  contracts in `rng.rs`.
- `tests/` runs the library on concrete games.
- `app/` is a headless Bevy program around the library: it loads the RON
  asset files, lays out the hexagons in floating point, and turns the
  messages of a front end into library calls.
