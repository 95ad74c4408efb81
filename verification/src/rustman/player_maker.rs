use vstd::prelude::*;

use crate::rustman::maze_maker::{count_squares, grid, lemma_count_squares_update, lemma_walled_after_clearing, well_shaped, walled, with_square, MAZE_HEIGHT, MAZE_X, MAZE_Y, SQUARE_SIZE};

verus! {

/// Width of the player sprite, in pixels.
pub const WIDTH: u32 = 24;
/// Height of the player sprite, in pixels.
pub const HEIGHT: u32 = 24;

/// Sprite index: facing up.
pub const UP: usize = 2;
/// Sprite index: facing down.
pub const DOWN: usize = 3;
/// Sprite index: facing left.
pub const LEFT: usize = 0;
/// Sprite index: facing right.
pub const RIGHT: usize = 1;
/// Sprite index: mouth open, eating.
pub const EAT: usize = 4;

/// Frames that a power pill keeps the ghosts edible.
pub const SUPER_PILL_TIME: i32 = 1000;

/// Frames the eating sprite stays up after a pill.
pub const EAT_FRAMES: usize = 10;

/// Where the player starts and restarts.
pub const START_X: i32 = 22;
pub const START_Y: i32 = 555;

/// The player.  `x_dir`/`y_dir` is the direction asked for from the
/// keyboard; `inertia_x`/`inertia_y` the direction the player keeps moving in.
#[derive(Clone, Copy)]
pub struct Player {
    pub x: i32,
    pub y: i32,
    pub x_dir: i32,
    pub y_dir: i32,
    pub lives: i32,
    pub score: i32,
    pub inertia_x: i32,
    pub inertia_y: i32,
    pub super_pill: i32,
    pub direction: usize,
    pub old_direction: usize,
    pub change_direction_back: usize,
}

/// The squares the player cannot enter.
pub open spec fn blocks_player(c: char) -> bool {
    c == 'X' || c == '!'
}

/// The maze square under pixel `(px, py)`.
pub open spec fn square_at(m: Seq<Seq<char>>, px: int, py: int) -> char {
    m[py / 8][px / 8]
}

/// The pixel rows probed when testing a position at height `ny`.
pub open spec fn probe_y(ny: int, j: int) -> int {
    seq![ny - 35, ny - 28, ny - 23, ny - 16, ny - 13][j]
}

/// The pixel columns probed when testing player position `nx`.
pub open spec fn player_probe_x(nx: int, i: int) -> int {
    seq![nx - 13, nx + 4, nx + 8][i]
}

/// All probes of a player position fall inside the maze rows and columns.
pub open spec fn player_probes_inside(nx: int, ny: int) -> bool {
    nx - 13 >= 0 && nx + 8 < 800 && ny - 35 >= 0 && ny - 13 < 576
}

/// The player may stand at `(nx, ny)`: none of its fifteen probes is a wall.
pub open spec fn player_move_ok(m: Seq<Seq<char>>, nx: int, ny: int) -> bool {
    forall|i: int, j: int| 0 <= i < 3 && 0 <= j < 5 ==>
        !blocks_player(#[trigger] square_at(m, player_probe_x(nx, i), probe_y(ny, j)))
}

/// The region a player stays in inside a walled maze.
pub open spec fn player_in_bounds(p: Player) -> bool {
    22 <= p.x <= 782 && 44 <= p.y <= 579
}

/// A direction: -1, 0 or 1.
pub open spec fn unit(d: i32) -> bool {
    -1 <= d <= 1
}

/// Positions and directions a player can be rendered with.
pub open spec fn player_ready(p: Player) -> bool {
    &&& player_in_bounds(p)
    &&& unit(p.x_dir) && unit(p.y_dir) && unit(p.inertia_x) && unit(p.inertia_y)
    &&& p.score < i32::MAX
}

/// The player back at the start, standing still.
pub open spec fn player_at_start(p: Player) -> Player {
    Player { x: START_X, y: START_Y, x_dir: 0, y_dir: 0, inertia_x: 0, inertia_y: 0, ..p }
}

/// Turns the asked-for directions into inertia where the way is free.
pub open spec fn player_set_inertia(p: Player, m: Seq<Seq<char>>) -> Player {
    let p1 = if p.x_dir != 0 && player_move_ok(m, p.x + p.x_dir, p.y as int) {
        Player { inertia_x: p.x_dir, ..p }
    } else {
        p
    };
    if p1.y_dir != 0 && player_move_ok(m, p1.x as int, p1.y + p1.y_dir) {
        Player { inertia_y: p1.y_dir, ..p1 }
    } else {
        p1
    }
}

/// Moves one pixel along x with the x inertia, where the position two
/// pixels ahead is free; otherwise the x inertia stops.
pub open spec fn player_step_x(p: Player, m: Seq<Seq<char>>) -> Player {
    if p.inertia_x != 0 {
        if player_move_ok(m, p.x + p.inertia_x * 2, p.y as int) {
            Player {
                direction: if p.change_direction_back == 0 {
                    if p.inertia_x < 0 { LEFT } else { RIGHT }
                } else {
                    p.direction
                },
                x: (p.x + p.inertia_x) as i32,
                inertia_y: if p.x_dir != 0 { 0 } else { p.inertia_y },
                x_dir: 0,
                ..p
            }
        } else {
            Player { inertia_x: 0, ..p }
        }
    } else {
        p
    }
}

/// Moves one pixel along y with the y inertia, where the position two
/// pixels ahead is free; otherwise the y inertia stops.
pub open spec fn player_step_y(p: Player, m: Seq<Seq<char>>) -> Player {
    if p.inertia_y != 0 {
        if player_move_ok(m, p.x as int, p.y + p.inertia_y * 2) {
            Player {
                y: (p.y + p.inertia_y) as i32,
                direction: if p.change_direction_back == 0 {
                    if p.inertia_y < 0 { UP } else { DOWN }
                } else {
                    p.direction
                },
                inertia_x: if p.y_dir != 0 { 0 } else { p.inertia_x },
                y_dir: 0,
                ..p
            }
        } else {
            Player { inertia_y: 0, ..p }
        }
    } else {
        p
    }
}

/// Moves along x, then along y.
pub open spec fn player_apply_inertia(p: Player, m: Seq<Seq<char>>) -> Player {
    player_step_y(player_step_x(p, m), m)
}

/// The maze row of the square the player eats from.
pub open spec fn eat_row(p: Player) -> int {
    (p.y - 24) / 8
}

/// The maze column of the square the player eats from.
pub open spec fn eat_col(p: Player) -> int {
    p.x / 8
}

/// Squares the player eats.
pub open spec fn edible(c: char) -> bool {
    c == '*' || c == 'P'
}

/// Eats the pill under the player, if any: the square becomes empty, the
/// eating sprite comes up, and a power pill (`'P'`) starts its timer.
/// The triple is: eaten, and the pixel corner of the emptied square.
pub open spec fn player_eat(p: Player, m: Seq<Seq<char>>) -> (Player, Seq<Seq<char>>, (bool, i32, i32)) {
    let what = m[eat_row(p)][eat_col(p)];
    if edible(what) {
        (
            Player {
                old_direction: p.direction,
                direction: EAT,
                change_direction_back: EAT_FRAMES,
                super_pill: if what == 'P' { SUPER_PILL_TIME } else { p.super_pill },
                ..p
            },
            with_square(m, eat_row(p), eat_col(p), ' '),
            (true, (eat_col(p) * 8) as i32, (eat_row(p) * 8) as i32),
        )
    } else {
        (p, m, (false, 0, 0))
    }
}

/// One frame of the player: steer, move, run down the power pill, eat,
/// score, and count down the eating sprite.
pub open spec fn player_render(p: Player, m: Seq<Seq<char>>) -> (Player, Seq<Seq<char>>, (bool, i32, i32)) {
    let p1 = player_apply_inertia(player_set_inertia(p, m), m);
    let p2 = if p1.super_pill > 0 { Player { super_pill: (p1.super_pill - 1) as i32, ..p1 } } else { p1 };
    let (p3, m3, res) = player_eat(p2, m);
    let p4 = if res.0 { Player { score: (p3.score + 1) as i32, ..p3 } } else { p3 };
    let p5 = if p4.change_direction_back > 0 && p4.direction == EAT {
        let back = (p4.change_direction_back - 1) as usize;
        Player { change_direction_back: back, direction: if back == 0 { p4.old_direction } else { p4.direction }, ..p4 }
    } else {
        p4
    };
    (p5, m3, res)
}

/// The value fits in an `i32`.
pub open spec fn fits_i32(v: int) -> bool {
    i32::MIN <= v <= i32::MAX
}

/// A frame of the player stays inside the maze: every position it tests and
/// the square it eats from exist, and nothing it adds up overflows.
pub open spec fn player_frame_ok(p: Player, m: Seq<Seq<char>>) -> bool {
    let p1 = player_set_inertia(p, m);
    let p2 = player_step_x(p1, m);
    let p3 = player_step_y(p2, m);
    &&& p.x_dir != 0 ==> player_probes_inside(p.x + p.x_dir, p.y as int)
    &&& p.y_dir != 0 ==> player_probes_inside(p.x as int, p.y + p.y_dir)
    &&& p1.inertia_x != 0 ==> fits_i32(p1.inertia_x * 2) && player_probes_inside(p1.x + p1.inertia_x * 2, p1.y as int)
    &&& p2.inertia_y != 0 ==> fits_i32(p2.inertia_y * 2) && player_probes_inside(p2.x as int, p2.y + p2.inertia_y * 2)
    &&& player_over_maze(p3)
    &&& edible(m[eat_row(p3)][eat_col(p3)]) ==> p.score < i32::MAX
}

/// Inside a walled maze, a position the player may stand on keeps all its
/// probes off the outer wall.
pub proof fn lemma_player_move_ok_inside(m: Seq<Seq<char>>, nx: int, ny: int)
    requires
        walled(m),
        player_probes_inside(nx, ny),
        player_move_ok(m, nx, ny),
    ensures
        21 <= nx <= 783,
        43 <= ny <= 580,
{
    let r0 = (ny - 35) / 8;
    let r4 = (ny - 13) / 8;
    let c0 = (nx - 13) / 8;
    let c2 = (nx + 8) / 8;
    assert(0 <= r0 < MAZE_Y && 0 <= r4 < MAZE_Y && 0 <= c0 < MAZE_X && 0 <= c2 < MAZE_X);
    assert(square_at(m, player_probe_x(nx, 0), probe_y(ny, 0)) == m[r0][c0]);
    assert(square_at(m, player_probe_x(nx, 2), probe_y(ny, 0)) == m[r0][c2]);
    assert(square_at(m, player_probe_x(nx, 0), probe_y(ny, 4)) == m[r4][c0]);
    if nx < 21 {
        assert(c0 == 0);
        assert(m[r0][0] == 'X');
    }
    if nx > 783 {
        assert(c2 == MAZE_X - 1);
        assert(m[r0][MAZE_X - 1] == 'X');
    }
    if ny < 43 {
        assert(r0 == 0);
        assert(m[0][c0] == 'X');
    }
    if ny > 580 {
        assert(r4 == MAZE_Y - 1);
        assert(m[MAZE_Y - 1][c0] == 'X');
    }
}

/// The player is near enough to the maze for the square under it to exist.
pub open spec fn player_over_maze(p: Player) -> bool {
    0 <= p.x < 800 && 24 <= p.y < 600
}

/// A frame moves the player at most one pixel along each axis, leaves its
/// lives alone, and scores exactly when it eats.
pub proof fn lemma_player_frame_steps(p: Player, m: Seq<Seq<char>>)
    requires
        player_ready(p),
        well_shaped(m),
    ensures
        -1 <= player_render(p, m).0.x - p.x <= 1,
        -1 <= player_render(p, m).0.y - p.y <= 1,
        player_render(p, m).0.lives == p.lives,
        player_render(p, m).0.score == p.score + if player_render(p, m).2.0 { 1int } else { 0int },
{
}

/// A player inside the maze bounds, with unit directions, can always take a frame.
pub proof fn lemma_player_ready_frame_ok(p: Player, m: Seq<Seq<char>>)
    requires
        player_ready(p),
    ensures
        player_frame_ok(p, m),
{
}

/// A pill is eaten once: after the player eats at its spot, a player at the
/// same spot finds nothing there and changes neither itself nor the maze.
pub proof fn lemma_eaten_square_is_empty(p: Player, q: Player, m: Seq<Seq<char>>)
    requires
        well_shaped(m),
        player_over_maze(p),
        player_eat(p, m).2.0,
        q.x == p.x,
        q.y == p.y,
    ensures
        player_eat(q, player_eat(p, m).1) == (q, player_eat(p, m).1, (false, 0i32, 0i32)),
{
    let m1 = player_eat(p, m).1;
    assert(0 <= eat_row(p) < MAZE_Y && 0 <= eat_col(p) < MAZE_X);
    assert(m1[eat_row(q)][eat_col(q)] == ' ');
}

/// The player moves along one axis at a time when it turns: a frame in which
/// a sideways way was asked for and the player moves sideways leaves its
/// height alone and stops its vertical motion; a frame in which an upward
/// or downward way was asked for and the player moves that way stops its
/// sideways motion.
pub proof fn lemma_turns_go_one_axis(p: Player, m: Seq<Seq<char>>)
    ensures
        p.x_dir != 0 && player_render(p, m).0.x != p.x ==> {
            &&& player_render(p, m).0.y == p.y
            &&& player_render(p, m).0.inertia_y == 0
        },
        p.y_dir != 0 && player_render(p, m).0.y != p.y ==> player_render(p, m).0.inertia_x == 0,
{
}

impl Player {
    /// A player at the start with three lives.
    pub fn new() -> (p: Player)
        ensures
            p == (Player {
                lives: 3, x: START_X, y: START_Y, x_dir: 0, y_dir: 0, score: 0, inertia_x: 0,
                inertia_y: 0, direction: 0, old_direction: 0, super_pill: 0, change_direction_back: 0,
            }),
    {
        Player {
            lives: 3,
            x: SQUARE_SIZE as i32 * 3 - 2,
            y: (MAZE_HEIGHT as i32 - SQUARE_SIZE as i32 * 3 + 3) as i32,
            x_dir: 0,
            y_dir: 0,
            score: 0,
            inertia_x: 0,
            inertia_y: 0,
            direction: 0,
            old_direction: 0,
            super_pill: 0,
            change_direction_back: 0,
        }
    }

    /// Puts the player back at the start, standing still; lives, score,
    /// power pill and sprite are kept.
    pub fn player_reset(&mut self)
        ensures
            *final(self) == player_at_start(*old(self)),
    {
        self.x = SQUARE_SIZE as i32 * 3 - 2;
        self.y = (MAZE_HEIGHT as i32 - SQUARE_SIZE as i32 * 3 + 3) as i32;
        self.x_dir = 0;
        self.y_dir = 0;
        self.inertia_y = 0;
        self.inertia_x = 0;
    }

    /// One frame: moves the player through the maze and eats what lies
    /// under it.  Returns whether a pill was eaten and the pixel corner of
    /// its square (`(false, 0, 0)` when nothing was eaten).
    pub fn render(&mut self, maze: &mut Vec<Vec<char>>) -> (r: (bool, i32, i32))
        requires
            player_frame_ok(*old(self), grid(old(maze))),
            well_shaped(grid(old(maze))),
        ensures
            *final(self) == player_render(*old(self), grid(old(maze))).0,
            grid(final(maze)) == player_render(*old(self), grid(old(maze))).1,
            r == player_render(*old(self), grid(old(maze))).2,
            walled(grid(old(maze))) ==> walled(grid(final(maze))),
            walled(grid(old(maze))) && player_ready(*old(self)) ==> player_in_bounds(*final(self)),
            well_shaped(grid(final(maze))),
            final(maze)@.len() == old(maze)@.len(),
            player_ready(*old(self)) ==> unit(final(self).x_dir) && unit(final(self).y_dir)
                && unit(final(self).inertia_x) && unit(final(self).inertia_y),
            final(self).lives == old(self).lives,
            final(self).score == old(self).score + if r.0 { 1int } else { 0int },
            0 <= old(self).super_pill <= SUPER_PILL_TIME ==> 0 <= final(self).super_pill <= SUPER_PILL_TIME,
            count_squares(grid(final(maze)), '*') + count_squares(grid(final(maze)), 'P')
                == count_squares(grid(old(maze)), '*') + count_squares(grid(old(maze)), 'P') - if r.0 { 1int } else { 0int },
    {
        let ghost p0 = *self;
        let ghost m0 = grid(maze);
        self.set_inertia(maze);
        self.apply_inertia(maze);
        if self.super_pill > 0 {
            self.super_pill = self.super_pill - 1;
        }
        let (eaten, x, y) = self.check_and_eat_pill(maze);
        if eaten {
            self.score = self.score + 1;
        }
        if self.change_direction_back > 0 && self.direction == EAT {
            self.change_direction_back = self.change_direction_back - 1;
            if self.change_direction_back == 0 {
                self.direction = self.old_direction;
            }
        }
        (eaten, x, y)
    }

    fn set_inertia(&mut self, maze: &Vec<Vec<char>>)
        requires
            old(self).x_dir != 0 ==> player_probes_inside(old(self).x + old(self).x_dir, old(self).y as int),
            old(self).y_dir != 0 ==> player_probes_inside(old(self).x as int, old(self).y + old(self).y_dir),
            well_shaped(grid(maze)),
        ensures
            *final(self) == player_set_inertia(*old(self), grid(maze)),
    {
        if self.x_dir != 0 {
            let new_x = self.x + self.x_dir;
            if self.check_if_move_ok(maze, new_x, self.y) {
                self.inertia_x = self.x_dir;
            }
        }
        if self.y_dir != 0 {
            let new_y = self.y + self.y_dir;
            if self.check_if_move_ok(maze, self.x, new_y) {
                self.inertia_y = self.y_dir;
            }
        }
    }

    fn apply_inertia(&mut self, maze: &Vec<Vec<char>>)
        requires
            old(self).inertia_x != 0 ==> fits_i32(old(self).inertia_x * 2)
                && player_probes_inside(old(self).x + old(self).inertia_x * 2, old(self).y as int),
            player_step_x(*old(self), grid(maze)).inertia_y != 0 ==> fits_i32(player_step_x(*old(self), grid(maze)).inertia_y * 2)
                && player_probes_inside(player_step_x(*old(self), grid(maze)).x as int,
                    player_step_x(*old(self), grid(maze)).y + player_step_x(*old(self), grid(maze)).inertia_y * 2),
            well_shaped(grid(maze)),
        ensures
            *final(self) == player_apply_inertia(*old(self), grid(maze)),
            walled(grid(maze)) && player_in_bounds(*old(self)) && unit(old(self).inertia_x) && unit(old(self).inertia_y)
                ==> player_in_bounds(*final(self)),
    {
        let ghost m = grid(maze);
        if self.inertia_x != 0 {
            let new_x = self.x + self.inertia_x * 2;
            if self.check_if_move_ok(maze, new_x, self.y) {
                if self.change_direction_back == 0 {
                    if self.inertia_x < 0 {
                        self.direction = LEFT;
                    } else {
                        self.direction = RIGHT;
                    }
                }
                proof {
                    if walled(m) {
                        lemma_player_move_ok_inside(m, new_x as int, self.y as int);
                    }
                }
                self.x = self.x + self.inertia_x;
                if self.x_dir != 0 {
                    self.inertia_y = 0;
                }
                self.x_dir = 0;
            } else {
                self.inertia_x = 0;
            }
        }
        if self.inertia_y != 0 {
            let new_y = self.y + self.inertia_y * 2;
            if self.check_if_move_ok(maze, self.x, new_y) {
                proof {
                    if walled(m) {
                        lemma_player_move_ok_inside(m, self.x as int, new_y as int);
                    }
                }
                self.y = self.y + self.inertia_y;
                if self.change_direction_back == 0 {
                    if self.inertia_y < 0 {
                        self.direction = UP;
                    } else {
                        self.direction = DOWN;
                    }
                }
                if self.y_dir != 0 {
                    self.inertia_x = 0;
                }
                self.y_dir = 0;
            } else {
                self.inertia_y = 0;
            }
        }
    }

    fn check_and_eat_pill(&mut self, maze: &mut Vec<Vec<char>>) -> (r: (bool, i32, i32))
        requires
            player_over_maze(*old(self)),
            well_shaped(grid(old(maze))),
        ensures
            *final(self) == player_eat(*old(self), grid(old(maze))).0,
            grid(final(maze)) == player_eat(*old(self), grid(old(maze))).1,
            r == player_eat(*old(self), grid(old(maze))).2,
            walled(grid(old(maze))) ==> walled(grid(final(maze))),
            well_shaped(grid(final(maze))),
            final(maze)@.len() == old(maze)@.len(),
            count_squares(grid(final(maze)), '*') + count_squares(grid(final(maze)), 'P')
                == count_squares(grid(old(maze)), '*') + count_squares(grid(old(maze)), 'P') - if r.0 { 1int } else { 0int },
    {
        let ghost m = grid(maze);
        let centre_x = self.x;
        let centre_y = self.y - SQUARE_SIZE as i32 * 3;
        let row = centre_y as usize / SQUARE_SIZE;
        let col = centre_x as usize / SQUARE_SIZE;
        assert(m[row as int] == maze@[row as int]@);
        let what = maze[row][col];
        if what == '*' || what == 'P' {
            let mut line = maze[row].clone();
            line.set(col, ' ');
            maze.set(row, line);
            assert(grid(maze) =~= with_square(m, row as int, col as int, ' '));
            proof {
                if walled(m) {
                    lemma_walled_after_clearing(m, row as int, col as int, ' ');
                }
                lemma_count_squares_update(m, row as int, col as int, ' ', '*');
                lemma_count_squares_update(m, row as int, col as int, ' ', 'P');
                assert forall|r: int| 0 <= r < MAZE_Y implies #[trigger] grid(maze)[r].len() >= MAZE_X by {
                    assert(grid(maze)[r] == with_square(m, row as int, col as int, ' ')[r]);
                }
            }
            let wherex = (centre_x / SQUARE_SIZE as i32) * SQUARE_SIZE as i32;
            let wherey = (centre_y / SQUARE_SIZE as i32) * SQUARE_SIZE as i32;
            self.old_direction = self.direction;
            self.direction = EAT;
            self.change_direction_back = 10;
            if what == 'P' {
                self.super_pill = SUPER_PILL_TIME;
            }
            (true, wherex, wherey)
        } else {
            (false, 0, 0)
        }
    }

    fn check_if_move_ok(&self, maze: &Vec<Vec<char>>, new_x: i32, new_y: i32) -> (r: bool)
        requires
            well_shaped(grid(maze)),
            player_probes_inside(new_x as int, new_y as int),
        ensures
            r == player_move_ok(grid(maze), new_x as int, new_y as int),
    {
        let ghost m = grid(maze);
        let half_square = SQUARE_SIZE as i32 / 2;
        let centre_x = new_x + half_square;
        let centre_y = new_y - half_square;
        let xarray: [i32; 3] = [centre_x - 17, centre_x, centre_x + 4];
        let yarray: [i32; 5] = [centre_y - 31, centre_y - 24, centre_y - 19, centre_y - 12, centre_y - 9];
        let mut all_okay = true;
        let mut j: usize = 0;
        while j < 5
            invariant
                m == grid(maze),
                well_shaped(m),
                player_probes_inside(new_x as int, new_y as int),
                j <= 5,
                forall|i: int| 0 <= i < 3 ==> xarray@[i] == #[trigger] player_probe_x(new_x as int, i),
                forall|jj: int| 0 <= jj < 5 ==> yarray@[jj] == #[trigger] probe_y(new_y as int, jj),
                all_okay <==> forall|ii: int, jj: int| 0 <= ii < 3 && 0 <= jj < j ==>
                    !blocks_player(#[trigger] square_at(m, player_probe_x(new_x as int, ii), probe_y(new_y as int, jj))),
            decreases 5 - j,
        {
            let mut i: usize = 0;
            while i < 3
                invariant
                    m == grid(maze),
                    well_shaped(m),
                    player_probes_inside(new_x as int, new_y as int),
                    j < 5,
                    i <= 3,
                    forall|i: int| 0 <= i < 3 ==> xarray@[i] == #[trigger] player_probe_x(new_x as int, i),
                    forall|jj: int| 0 <= jj < 5 ==> yarray@[jj] == #[trigger] probe_y(new_y as int, jj),
                    all_okay <==> forall|ii: int, jj: int| 0 <= ii < 3 && 0 <= jj <= j && (jj < j || ii < i) ==>
                        !blocks_player(#[trigger] square_at(m, player_probe_x(new_x as int, ii), probe_y(new_y as int, jj))),
                decreases 3 - i,
            {
                let py = yarray[j];
                let px = xarray[i];
                assert(py == probe_y(new_y as int, j as int));
                assert(px == player_probe_x(new_x as int, i as int));
                let r = py as usize / SQUARE_SIZE;
                let c = px as usize / SQUARE_SIZE;
                assert(m[r as int] == maze@[r as int]@);
                let ch = maze[r][c];
                assert(square_at(m, player_probe_x(new_x as int, i as int), probe_y(new_y as int, j as int)) == ch);
                if ch == 'X' || ch == '!' {
                    all_okay = false;
                }
                i = i + 1;
            }
            j = j + 1;
        }
        all_okay
    }
}

} // verus!
