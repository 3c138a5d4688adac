# gamelink

A small framework for turn-based games, with Tic-Tac-Toe as its game, whose
rules are verified with Verus.

- `src/xo.rs`: the board, the roles, moves (`Select`) and the game
  (`XOGame`): winner, filled cells, possible moves, scores, playing and taking
  back moves, joining and replacing players.
- `src/players.rs`: the player of each role, and what a series of
  replacements does to them.
- `src/text.rs`: the text of roles, moves and boards.
- `src/selection.rs`: the question asked on the terminal and the reading of
  its answer.
- `src/laws.rs`: properties that relate several operations (undoing moves,
  partition of the board, consistency of reachable games, rollback of players).
- `app/`: the program, the decision selectors (terminal and random), the
  probabilities, the generic game traits and the simulation guard.
