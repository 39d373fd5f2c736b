# conesnake

A Battlesnake player built on Monte Carlo tree search, with its game model
verified in Verus.

## Layout

- `src/` — the verified library:
  - `util.rs`: coordinates, moves and their 2-bit encoding, the characters of
    the board text format, random move lists, errors.
  - `board.rs`: the board (a row-major matrix of squares and four snake
    slots), its consistency predicate `wf`, coordinates and moves, the royale
    bounds.
  - `board/board_rules.rs`: move validity, head-on collision classes, nearest
    snake, random and strong move choice.
  - `board/board_turn.rs`: one turn of the rules (`gen_board`) and its stages.
  - `board/board_api.rs`: boards from move requests and back.
  - `board/board_str.rs`, `board/board_text.rs`: the board text format, its
    reader and writer, and the proof that written text reads back.
  - `board/board_simd.rs`: lane-wise helpers over fixed arrays.
  - `game.rs`, `api.rs`, `config.rs`, `delay.rs`, `random.rs`, `gpu_move.rs`.
- `tests/` — tests of the library.
- `app/` — the server program: HTTP handling, JSON forms of the API types, the
  tree search and its thread pool.

The only calls into an outside crate that the library makes are to `rand`, in
`random.rs`, behind wrappers whose contracts state what the crate guarantees.
