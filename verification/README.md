# oxide_engine

A small UCI chess engine whose evaluation, move ordering, search and
protocol parsing are verified with Verus.  Move generation and board
bookkeeping come from the `chess` crate.

Layout:

- `src/pst.rs`: piece values, piece-square tables and the table queries over
  bitboards, with the law that white reads a table on the board turned
  around.
- `src/board.rs`: `Position` (a `chess::Board` with every field of it read
  as plain values), `Move`, setting up a position from a FEN record and move
  texts, and the calls into the `chess` crate, each behind a small trusted
  function whose contract says what the crate's code does.
- `src/fen.rs`: which FEN records the crate's reader does not return on
  (those placing no king of the side to move), read with the crate's
  `BoardBuilder`.
- `src/eval.rs`: `EvalTracker`, the evaluation computed once per position and
  updated move by move; the laws that the evaluation is zero-sum between the
  sides, that passing the turn negates it, and that the update follows the
  evaluation across a simple move the crate plays.
- `src/engine.rs`: history counters, move ordering, the cached alpha-beta
  search (`calculate`) and the root search (`find_best`), each proved equal
  to a recursive specification of the search.
- `src/uci.rs`: splitting a line into words and reading a protocol command.
- `app/main.rs`: the program: reads commands from standard input and prints
  the engine's answers.
- `tests/`: tests of the library on concrete positions and commands.
