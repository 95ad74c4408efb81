# rustman

A small maze-chase game. The library holds the game's logic, verified with
Verus; `app/` is the SDL2 program that opens the window, reads the maze text,
plays the sounds and draws each frame.

Library layout (`src/rustman/`):

- `maze_maker` — the maze grid: building it from its text (walls, gates,
  power pills, and pills spread over open ground), counting pills, and drawing
  it into an RGB24 pixel buffer.
- `player_maker` — the player: steering, moving, eating.
- `ghost_maker` — the ghosts: steering, wandering, spotting and chasing the
  player. Their random choices come in as `Dice`.
- `sound` — the life cycle of a playing sound.
- `title` — the slanted title banner, from rendered text to pixels.
- `game` — the frame-by-frame rules: title screen, play, game over.
- `rustman.rs` — the per-frame ghost update and the catch rules.

Each frame function has an exact contract over spec functions of the same
names; `game::game_ok` is what holds between frames and every frame keeps it.
