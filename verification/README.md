# reversi_rs

Board games (tic-tac-toe, connect four, Reversi) and a Monte-Carlo tree
search that plays them, with the rules, the search bookkeeping and the
NBoard protocol parsing verified by Verus.

## Layout

- `src/` — the verified library:
  - `game`, `tic_tac_toe`, `connect_four`, `reversi`: the game interface and
    the three games, each with a mathematical model of its board and a proof
    that every game ends;
  - `tree`: an arena tree whose nodes refer to each other by index;
  - `mcts_data`, `amcts_data`: the statistics kept at each search node;
  - `search`, `step`, `consistency`, `balance`, `terminals`: expansion,
    simulation and back-propagation, one search step, and the invariants
    that every step keeps (saturation counts, play counts, finished games);
  - `par_search`: the search variant used by the threaded agent;
  - `ranking`, `report`: ranking of the results and the text bar shown to
    the player;
  - `text`, `action_text`, `nboard`, `engine`: text handling, move parsing,
    the NBoard protocol messages and what the engine does on each of them;
  - `dot_visualize`: drawing a search tree in Graphviz's DOT language;
  - `runner`, `games`, `random`: playing a game to its end between agents.
- `tests/` — tests that run the library.
- `app/` — the program: console play, the timed and threaded search, and
  the NBoard engine loop over standard input and output.
