# sea_battle

A game of battleship against the computer, with its rules verified by Verus.

- `src/board.rs`: cells, ships and the board: placing ships with the cells around them,
  shots, the computer's search around hits, and the specification of each.
- `src/laws.rs`: properties of the board across calls: a shot only appends to the taken
  cells, a second shot at a cell is `Used`, a sunk ship is surrounded, ships placed one by one
  never touch, a shot keeps the books of a board in order and never undoes a defeat, and a board
  in play keeps each ship's lives equal to its decks not yet hit.
- `src/player.rs`: the game: random fleets whose ships never touch, placed draw by draw by
  `Game::deal_step` (whose rounds `deal_run` specifies), the computer's move, and the
  bookkeeping of turns. Random numbers come from `rand`.
- `src/render.rs`: the text picture of a board.
- `src/input.rs`: reading a shot typed as two numbers.
- `app/main.rs`: the console program (input, output and the game loop).
