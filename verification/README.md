# solo_chess

The rules, puzzle generator and terminal drawing logic of a terminal
Solo Chess trainer, verified with Verus. In Solo Chess every move is a
capture, each piece captures at most twice, a king is never captured, and
the puzzle is solved when one piece is left. There are ten levels of three
puzzles; level 1 holds 3 pieces, and each later level three more pieces than
its number, up to 13 at level 10.

- `src/board.rs`: pieces, the board, what each piece attacks, allowed captures.
- `src/rules.rs`: solutions of a position and the laws of the game.
- `src/rng.rs`: the seeded generator and its shuffle.
- `src/puzzle.rs`: backward generation of puzzles, with the proof that every
  generated puzzle has a solution.
- `src/session.rs`, `src/game.rs`: levels, navigation and the key handling
  of the training game.
- `src/kitty.rs`, `src/text.rs`, `src/display.rs`, `src/terminal.rs`: Base64,
  Kitty graphics commands, clock text, board layout and terminal detection.
- `src/frame.rs`: the bytes of a whole frame of the board, written through
  crossterm's cursor and colour commands.
- `app/main.rs`: the crossterm front end (keyboard, clock, sound, output).

The front end reads the piece pictures and the capture sound from `assets/`
at start; without the pictures it draws Unicode glyphs.
