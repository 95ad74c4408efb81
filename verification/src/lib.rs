//! Game logic of a small maze-chase game: the maze, the player, the ghosts,
//! the frame-by-frame rules that tie them together, and the pixel work that
//! draws the maze and the title banner into plain byte buffers.

pub mod rustman;
