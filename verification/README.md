# ball_game

A ball-taking game against the computer: the players take turns removing an
allowed number of balls from a pile, and whoever takes the last ball wins.

- `src/` is the verified library (Verus):
  - `algorithm` — the computer's strategy table and the laws of the game
    (a winning move leaves a losing pile, a losing pile has no winning move,
    the winning side stays winning);
  - `parse_input` — reading the allowed amounts from text such as `"1 3 5-8"`;
  - `number` — reading a `u32` the way `str::parse` does, and writing one in decimal;
  - `game` — the game state and the player's and computer's moves;
  - `balls` — which balls are selected and which leave the list after a move;
  - `layout` — arranging the balls in triangular rows;
  - `menu` — starting a game from the menu's two input fields.
- `app/` is the Amethyst program around it: windows, sprites, UI and the
  floating-point ball positions.
- `tests/` runs the library on concrete values and compares it with std.
