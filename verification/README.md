# Redline

A chess engine whose rules, move generation, evaluation, search and UCI
decisions are written in Verus and proved against their contracts.

## Layout

- `src/` — the verified library.
  - `board/` — bitboards, pieces, move encoding, the board and its
    well-formedness, making and taking back moves, legality (and its
    agreement with the position after the move), FEN reading and writing,
    coordinate notation and static exchange evaluation.
  - `movegen/` — pseudo-legal and legal move generation by kind (captures,
    quiets, evasions), with every generated move proved to follow the rules
    and to be listed once.
  - `engine/` — the transposition table, the evaluation, the staged move
    picker, the search, and the tablebase decisions.
  - `uci.rs` — which command a line is, the options, the `go` plan and time
    allocation, and the position a `position` command sets up.
  - `text.rs`, `paths.rs` — text helpers and the tablebase path.
- `tests/` — tests of the library on concrete positions and commands.
- `app/` — the program around the library: the UCI loop, helper search
  threads, the HTTP interface, the tablebase prober and the match tools.

