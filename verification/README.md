# peg_solitaire

Peg solitaire on a cross-shaped board, as a library verified with Verus.

- `src/grid.rs`: the board (`Grid`, `Cell`): building a new board, looking up
  holes, the rules of a jump, listing the open moves, making a move, dealing
  the pegs out again. Each function's contract is stated over the board's
  cells as a sequence (`initial_cells`, `cell_index`, `jump_ok`,
  `valid_moves`, `after_move`, `dealt_out`).
- `src/game.rs`: the `Game` trait, games played by hand (`ManualGame`, with
  its click handling) or by the program (`AutomatedGame`), the recording of
  moves (`GameRecorder`) and the `GameManager`.
- `src/laws.rs`: properties that span functions, proved: the shape of a new
  board, that the listed moves are exactly the jumps `check_move` accepts,
  that a jump takes one peg, that dealing out keeps the pegs and holes.
- `src/text.rs`: decimal printing of integers, for the recording's text.
- `src/random.rs`: the two calls into `rand` (shuffle, pick one), with the
  contracts they are trusted to meet.
- `app/main.rs`: a terminal front end that reads commands from standard input.
