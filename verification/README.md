# game2048

The game 2048 in a terminal, with a player that looks ahead, as a library
verified with Verus and a small program around it.

- `src/board.rs`: the board as a grid of integers, what sliding a row to the
  left does, the four moves as quarter turns around that slide, the empty
  cells and where new tiles go.
- `src/game.rs`: the game itself: moves, merges and score, new tiles, where
  the game stands, and the text of the screen.
- `src/bot.rs`: the moves the player tries and how it judges a board.
- `src/cli.rs`: the command line and the keys.
- `src/text.rs`: the text pieces the screen is made of.
- `src/laws.rs`: properties of moves and new tiles that hold for every board.
- `src/bounds.rs`: tile and score limits under which nothing leaves `i32`.
- `app/`: the terminal, the look-ahead (floating point) and the main loop.
