use vstd::prelude::*;

use rand::Rng;

use crate::rustman::maze_maker::{cell_of, grid, well_shaped, walled, xy_to_cell, MAZE_HEIGHT, MAZE_WIDTH, MAZE_X, MAZE_Y, SQUARE_SIZE};
use crate::rustman::player_maker::{fits_i32, probe_y, square_at, unit};

verus! {

/// Width of the ghost sprite, in pixels.
pub const WIDTH: u32 = 24;
/// Height of the ghost sprite, in pixels.
pub const HEIGHT: u32 = 24;

/// A ghost.  It heads for `current_target`, which it takes over from
/// `target` (where the player is, or flees to) from time to time.
#[derive(Clone, Copy)]
pub struct Phantom {
    pub x: i32,
    pub y: i32,
    pub x_dir: i32,
    pub y_dir: i32,
    pub inertia_x: i32,
    pub inertia_y: i32,
    pub target: (i32, i32),
    pub current_target: (i32, i32),
    pub clicks: i32,
    pub smart_seconds: i32,
    pub startx: i32,
    pub starty: i32,
    pub stop: bool,
    pub out_of_home: bool,
}

/// A pair of random direction draws, each from `{-1, 0}`.
#[derive(Clone, Copy)]
pub struct Turn {
    pub x: i32,
    pub y: i32,
}

/// The random draws one frame of a ghost may use: when and where it
/// wanders off to, and a fresh direction for each of the three places
/// where a stuck ghost picks one at random.
#[derive(Clone, Copy)]
pub struct Dice {
    pub wander_tick: i32,
    pub wander_x: i32,
    pub wander_y: i32,
    pub settle: Turn,
    pub blocked_x: Turn,
    pub blocked_y: Turn,
}

/// Draws that `gen_range(-1, 1)` can give.
pub open spec fn fair_turn(t: Turn) -> bool {
    -1 <= t.x <= 0 && -1 <= t.y <= 0
}

/// Draws that the game's random number ranges can give.
pub open spec fn fair_dice(d: Dice) -> bool {
    &&& 1 <= d.wander_tick < 10
    &&& -1 <= d.wander_x <= 0 && -1 <= d.wander_y <= 0
    &&& fair_turn(d.settle) && fair_turn(d.blocked_x) && fair_turn(d.blocked_y)
}

/// `rand::thread_rng().gen_range(low, high)`: a uniformly drawn integer in
/// `[low, high)`.  Only the range is stated; the value depends on chance.
#[verifier::external_body]
fn roll(low: i32, high: i32) -> (r: i32)
    requires
        low < high,
    ensures
        low <= r < high,
{
    rand::thread_rng().gen_range(low, high)
}

fn roll_turn() -> (t: Turn)
    ensures
        fair_turn(t),
{
    let x = roll(-1, 1);
    let y = roll(-1, 1);
    Turn { x, y }
}

/// Draws everything one ghost frame may need.
pub fn roll_dice() -> (d: Dice)
    ensures
        fair_dice(d),
{
    let wander_tick = roll(1, 10);
    let wander_x = roll(-1, 1);
    let wander_y = roll(-1, 1);
    let settle = roll_turn();
    let blocked_x = roll_turn();
    let blocked_y = roll_turn();
    Dice { wander_tick, wander_x, wander_y, settle, blocked_x, blocked_y }
}

/// Squared distance between two points.  Ghosts compare distances in double
/// precision; for points within `NEAR` of the origin the squares are exact
/// integers below 2^44 and the square root separates any two of them, so
/// comparing squares gives the same answers there.
pub open spec fn dist2(ax: int, ay: int, bx: int, by: int) -> int {
    (bx - ax) * (bx - ax) + (by - ay) * (by - ay)
}

/// The pixel columns probed when testing ghost position `nx`.
pub open spec fn ghost_probe_x(nx: int, i: int) -> int {
    seq![nx - 14, nx + 4, nx + 8][i]
}

/// All probes of a ghost position fall inside the maze rows and columns.
pub open spec fn ghost_probes_inside(nx: int, ny: int) -> bool {
    nx - 14 >= 0 && nx + 8 < 800 && ny - 35 >= 0 && ny - 13 < 576
}

/// A ghost may stand at `(nx, ny)`: none of its fifteen probes is a wall
/// (`'X'`; ghosts pass through the `'!'` gate).
pub open spec fn ghost_move_ok(m: Seq<Seq<char>>, nx: int, ny: int) -> bool {
    forall|i: int, j: int| 0 <= i < 3 && 0 <= j < 5 ==>
        #[trigger] square_at(m, ghost_probe_x(nx, i), probe_y(ny, j)) != 'X'
}

/// The region a ghost stays in inside a walled maze.
pub open spec fn ghost_in_bounds(g: Phantom) -> bool {
    22 <= g.x <= 783 && 43 <= g.y <= 580
}

/// How far from the origin a ghost's targets may lie for its distance
/// comparisons to be those of exact arithmetic.
pub const NEAR: i32 = 0x10_0000;

/// A coordinate within `NEAR` of the origin.
pub open spec fn near(v: int) -> bool {
    -NEAR <= v <= NEAR
}

/// Positions, directions, counters and targets a ghost can be rendered with.
pub open spec fn ghost_ready(g: Phantom) -> bool {
    &&& ghost_in_bounds(g)
    &&& unit(g.x_dir) && unit(g.y_dir) && unit(g.inertia_x) && unit(g.inertia_y)
    &&& 0 <= g.clicks < i32::MAX
    &&& 0 <= g.smart_seconds <= i32::MAX - 3
    &&& near(g.target.0 as int) && near(g.target.1 as int)
    &&& near(g.current_target.0 as int) && near(g.current_target.1 as int)
}

/// Remainder of integer division rounding towards zero, as `%` computes it
/// on machine integers: it takes the sign of `a`.
pub open spec fn rem(a: int, b: int) -> int {
    if a >= 0 { a % b } else { -((-a) % b) }
}

/// The ghost back where it started, heading up.
pub open spec fn ghost_at_start(g: Phantom) -> Phantom {
    Phantom { x: g.startx, y: g.starty, x_dir: 0, inertia_x: 0, y_dir: -1i32, inertia_y: -1i32, ..g }
}

/// Which way, left (-1) or right (1), takes the ghost nearer its current
/// target; a free way is preferred, and 0 when both are blocked.
pub open spec fn ghost_left_right(g: Phantom, m: Seq<Seq<char>>) -> i32 {
    let left = dist2(g.x - 24, g.y as int, g.current_target.0 as int, g.current_target.1 as int);
    let right = dist2(g.x + 24, g.y as int, g.current_target.0 as int, g.current_target.1 as int);
    let leftok = ghost_move_ok(m, g.x - 1, g.y as int);
    let rightok = ghost_move_ok(m, g.x + 2, g.y as int);
    if leftok && left < right {
        -1i32
    } else if rightok && right < left {
        1
    } else if leftok {
        -1i32
    } else if rightok {
        1
    } else {
        0
    }
}

/// Which way, up (-1) or down (1), takes the ghost nearer its current
/// target; a free way is preferred, and 0 when both are blocked.
pub open spec fn ghost_up_down(g: Phantom, m: Seq<Seq<char>>) -> i32 {
    let down = dist2(g.x as int, g.y + 24, g.current_target.0 as int, g.current_target.1 as int);
    let up = dist2(g.x as int, g.y - 24, g.current_target.0 as int, g.current_target.1 as int);
    let upok = ghost_move_ok(m, g.x as int, g.y - 1);
    let downok = ghost_move_ok(m, g.x as int, g.y + 1);
    if upok && up < down {
        -1i32
    } else if downok && down < up {
        1
    } else if upok {
        -1i32
    } else if downok {
        1
    } else {
        0
    }
}

/// A stuck ghost picks a new direction: it reverses an axis it was already
/// asking for, turns onto the other axis towards its target, or, standing
/// still, takes the random turn `t`.
pub open spec fn ghost_turn(g: Phantom, m: Seq<Seq<char>>, t: Turn) -> Phantom {
    if g.inertia_x != 0 && g.inertia_x == g.x_dir && g.inertia_y == 0 {
        Phantom { x_dir: (-g.x_dir) as i32, ..g }
    } else if g.inertia_y != 0 && g.inertia_y == g.y_dir && g.inertia_x == 0 {
        Phantom { y_dir: (-g.y_dir) as i32, ..g }
    } else if g.inertia_x != 0 {
        Phantom { y_dir: ghost_up_down(g, m), x_dir: 0, inertia_x: 0, ..g }
    } else if g.inertia_y != 0 {
        Phantom { x_dir: ghost_left_right(g, m), y_dir: 0, inertia_y: 0, ..g }
    } else {
        Phantom { x_dir: t.x, y_dir: t.y, ..g }
    }
}

/// Every twenty "smart seconds" the ghost retargets on `target`; once in
/// 1800 frames (at a random tick) it heads for a random spot by the middle.
pub open spec fn ghost_wander(g: Phantom, d: Dice) -> Phantom {
    let g1 = if rem(g.smart_seconds as int, 20) == 19 {
        Phantom { smart_seconds: (g.smart_seconds + 1) as i32, current_target: g.target, ..g }
    } else {
        g
    };
    if rem(g1.clicks as int, 1800) == d.wander_tick {
        Phantom {
            smart_seconds: (g1.smart_seconds + 1) as i32,
            current_target: ((d.wander_x * 4 + 400) as i32, (d.wander_y * 4 + 288) as i32),
            ..g1
        }
    } else {
        g1
    }
}

/// Asked-for directions become inertia where the way is free; a ghost with
/// neither picks a new direction.
pub open spec fn ghost_set_inertia(g: Phantom, m: Seq<Seq<char>>, t: Turn) -> Phantom {
    let g1 = if g.x_dir != 0 && ghost_move_ok(m, g.x + g.x_dir, g.y as int) {
        Phantom { inertia_x: g.x_dir, ..g }
    } else {
        g
    };
    let g2 = if g1.y_dir != 0 && ghost_move_ok(m, g1.x as int, g1.y + g1.y_dir) {
        Phantom { inertia_y: g1.y_dir, ..g1 }
    } else {
        g1
    };
    if g2.inertia_x == 0 && g2.inertia_y == 0 && g2.x_dir == 0 && g2.y_dir == 0 {
        ghost_turn(g2, m, t)
    } else {
        g2
    }
}

/// Within one square of its current target, the ghost is out of its home
/// and takes `target` as its new current target.
pub open spec fn ghost_target_reached(g: Phantom) -> Phantom {
    if dist2(g.x as int, g.y as int, g.current_target.0 as int, g.current_target.1 as int) < 64 {
        Phantom { out_of_home: true, current_target: g.target, ..g }
    } else {
        g
    }
}

/// A step that moves along exactly one axis by one square.
pub open spec fn unit_step(ax: int, ay: int) -> bool {
    ||| ax == 0 && (ay == 1 || ay == -1)
    ||| ay == 0 && (ax == 1 || ax == -1)
}

/// Walking from square `(x, y)` in steps of `(ax, ay)`, over open squares
/// strictly inside the maze, reaches square `(px, py)`.
pub open spec fn sees(m: Seq<Seq<char>>, x: int, y: int, px: int, py: int, ax: int, ay: int) -> bool
    decreases (if ax == 1 { 100 - x } else if ax == -1 { x } else if ay == 1 { 72 - y } else { y }),
{
    if unit_step(ax, ay) && 0 < x < 100 && 0 < y < 72 && m[y][x] != 'X' {
        if x == px && y == py {
            true
        } else {
            sees(m, x + ax, y + ay, px, py, ax, ay)
        }
    } else {
        false
    }
}

/// Looks left, right, up and down, in that order, for the player; on a
/// sighting the ghost turns that way.
pub open spec fn ghost_look(g: Phantom, m: Seq<Seq<char>>, pcx: int, pcy: int, gcx: int, gcy: int) -> (Phantom, bool) {
    if sees(m, gcx, gcy, pcx, pcy, -1, 0) {
        (Phantom { x_dir: -1i32, y_dir: 0, inertia_x: -1i32, inertia_y: 0, ..g }, true)
    } else if sees(m, gcx, gcy, pcx, pcy, 1, 0) {
        (Phantom { x_dir: 1, y_dir: 0, inertia_x: 1, inertia_y: 0, ..g }, true)
    } else if sees(m, gcx, gcy, pcx, pcy, 0, -1) {
        (Phantom { x_dir: 0, y_dir: -1i32, inertia_x: 0, inertia_y: -1i32, ..g }, true)
    } else if sees(m, gcx, gcy, pcx, pcy, 0, 1) {
        (Phantom { x_dir: 0, y_dir: 1, inertia_x: 0, inertia_y: 1, ..g }, true)
    } else {
        (g, false)
    }
}

/// Off the square grid, and during part of every thirty smart seconds, a
/// ghost that sees the player turns towards it and retargets on `target`,
/// unless the way is blocked a few pixels ahead, in which case nothing changes.
pub open spec fn ghost_chase(g: Phantom, m: Seq<Seq<char>>, pcx: int, pcy: int, gcx: int, gcy: int) -> Phantom {
    if g.x % 8 != 0 && g.y % 8 != 0 && rem(g.smart_seconds as int, 30) > 8 {
        let (g1, visible) = ghost_look(g, m, pcx, pcy, gcx, gcy);
        if visible && ghost_move_ok(m, g1.x + g1.x_dir * 3, g1.y + g1.y_dir * 2) {
            Phantom { current_target: g1.target, ..g1 }
        } else {
            g
        }
    } else {
        g
    }
}

/// Moves one pixel along x with the x inertia where the way is free;
/// otherwise the ghost picks a new direction and the x inertia stops.
pub open spec fn ghost_step_x(g: Phantom, m: Seq<Seq<char>>, t: Turn) -> Phantom {
    if g.inertia_x != 0 {
        if ghost_move_ok(m, g.x + g.inertia_x, g.y as int) {
            Phantom { x: (g.x + g.inertia_x) as i32, x_dir: 0, ..g }
        } else {
            Phantom { inertia_x: 0, ..ghost_turn(g, m, t) }
        }
    } else {
        g
    }
}

/// Moves one pixel along y with the y inertia where the way is free;
/// otherwise the ghost picks a new direction and the y inertia stops.
pub open spec fn ghost_step_y(g: Phantom, m: Seq<Seq<char>>, t: Turn) -> Phantom {
    if g.inertia_y != 0 {
        if ghost_move_ok(m, g.x as int, g.y + g.inertia_y) {
            Phantom { y: (g.y + g.inertia_y) as i32, y_dir: 0, ..g }
        } else {
            Phantom { inertia_y: 0, ..ghost_turn(g, m, t) }
        }
    } else {
        g
    }
}

/// Moves along x, then along y.
pub open spec fn ghost_apply_inertia(g: Phantom, m: Seq<Seq<char>>, tx: Turn, ty: Turn) -> Phantom {
    ghost_step_y(ghost_step_x(g, m, tx), m, ty)
}

/// The start of a ghost's frame: the frame is counted, every sixtieth
/// frame is a smart second, and from the 240th frame on it is out of home.
pub open spec fn ghost_tick(g: Phantom) -> Phantom {
    let c = g.clicks + 1;
    let g1 = Phantom { clicks: c as i32, ..g };
    let g2 = if c % 60 == 0 { Phantom { smart_seconds: (g1.smart_seconds + 1) as i32, ..g1 } } else { g1 };
    if c % 240 == 0 { Phantom { out_of_home: true, ..g2 } } else { g2 }
}

/// A ghost's frame up to the moment it decides whether to chase: counted,
/// maybe wandering, steered, and retargeted on arrival.
#[verifier::opaque]
pub open spec fn ghost_prepare(g: Phantom, m: Seq<Seq<char>>, d: Dice) -> Phantom {
    let g3 = ghost_tick(g);
    let g4 = if g3.out_of_home { ghost_wander(g3, d) } else { g3 };
    ghost_target_reached(ghost_set_inertia(g4, m, d.settle))
}

/// The chase step of a frame, from the prepared ghost `g6`.
#[verifier::opaque]
pub open spec fn ghost_chase_step(g6: Phantom, m: Seq<Seq<char>>) -> Phantom {
    ghost_chase(g6, m, cell_of(g6.target.0 + 2), cell_of(g6.target.1 - 16), cell_of(g6.x + 4), cell_of(g6.y - 16))
}

/// One frame of a ghost, with the random draws `d`: counted, maybe wandering,
/// steered, retargeted, turned towards a visible player, and, unless
/// stopped, moved.
#[verifier::opaque]
pub open spec fn ghost_render(g: Phantom, m: Seq<Seq<char>>, d: Dice) -> Phantom {
    let g7 = ghost_chase_step(ghost_prepare(g, m, d), m);
    if !g7.stop {
        ghost_apply_inertia(g7, m, d.blocked_x, d.blocked_y)
    } else {
        g7
    }
}

/// A stuck ghost can pick a direction: an axis it reverses is not at the
/// bottom of the `i32` range; where it compares the ways round, the squares
/// it tests exist and its current target is within `NEAR` of the origin.
pub open spec fn turn_ok(g: Phantom) -> bool {
    if g.inertia_x != 0 && g.inertia_x == g.x_dir && g.inertia_y == 0 {
        g.x_dir != i32::MIN
    } else if g.inertia_y != 0 && g.inertia_y == g.y_dir && g.inertia_x == 0 {
        g.y_dir != i32::MIN
    } else if g.inertia_x != 0 {
        &&& ghost_probes_inside(g.x as int, g.y - 1) && ghost_probes_inside(g.x as int, g.y + 1)
        &&& near(g.current_target.0 as int) && near(g.current_target.1 as int)
    } else if g.inertia_y != 0 {
        &&& ghost_probes_inside(g.x - 1, g.y as int) && ghost_probes_inside(g.x + 2, g.y as int)
        &&& near(g.current_target.0 as int) && near(g.current_target.1 as int)
    } else {
        true
    }
}

/// Turning compares the ways round, and so reads the maze.
pub open spec fn turn_reads_maze(g: Phantom) -> bool {
    &&& !(g.inertia_x != 0 && g.inertia_x == g.x_dir && g.inertia_y == 0)
    &&& !(g.inertia_y != 0 && g.inertia_y == g.y_dir && g.inertia_x == 0)
    &&& (g.inertia_x != 0 || g.inertia_y != 0)
}

/// The ghost's offsets to its current target fit the `i32` arithmetic of the
/// arrival test.
pub open spec fn reach_fits(g: Phantom) -> bool {
    fits_i32(g.current_target.0 - g.x) && fits_i32(g.current_target.1 - g.y)
}

/// The positions a ghost tests while steering exist.
pub open spec fn set_inertia_ok(g: Phantom) -> bool {
    &&& g.x_dir != 0 ==> ghost_probes_inside(g.x + g.x_dir, g.y as int)
    &&& g.y_dir != 0 ==> ghost_probes_inside(g.x as int, g.y + g.y_dir)
}

/// The smart-second counter does not overflow while wandering.
pub open spec fn wander_ok(g: Phantom, d: Dice) -> bool {
    let g1 = if rem(g.smart_seconds as int, 20) == 19 {
        Phantom { smart_seconds: (g.smart_seconds + 1) as i32, ..g }
    } else {
        g
    };
    &&& rem(g.smart_seconds as int, 20) == 19 ==> g.smart_seconds < i32::MAX
    &&& rem(g1.clicks as int, 1800) == d.wander_tick ==> g1.smart_seconds < i32::MAX
}

/// A ghost that sees the player can test the position a few pixels ahead.
pub open spec fn chase_ok(g: Phantom, m: Seq<Seq<char>>, pcx: int, pcy: int, gcx: int, gcy: int) -> bool {
    let (g1, visible) = ghost_look(g, m, pcx, pcy, gcx, gcy);
    g.x % 8 != 0 && g.y % 8 != 0 && rem(g.smart_seconds as int, 30) > 8 && visible
        ==> ghost_probes_inside(g1.x + g1.x_dir * 3, g1.y + g1.y_dir * 2)
}

/// The positions a ghost tests while moving exist, and it can turn where it is stuck.
pub open spec fn apply_ok(g: Phantom, m: Seq<Seq<char>>, tx: Turn) -> bool {
    let g1 = ghost_step_x(g, m, tx);
    &&& g.inertia_x != 0 ==> ghost_probes_inside(g.x + g.inertia_x, g.y as int)
        && (!ghost_move_ok(m, g.x + g.inertia_x, g.y as int) ==> turn_ok(g))
    &&& g1.inertia_y != 0 ==> ghost_probes_inside(g1.x as int, g1.y + g1.inertia_y)
        && (!ghost_move_ok(m, g1.x as int, g1.y + g1.inertia_y) ==> turn_ok(g1))
}

/// The first stages of a frame stay inside the maze and its counters do
/// not overflow.
pub open spec fn prepare_ok(g: Phantom, d: Dice) -> bool {
    let g3 = ghost_tick(g);
    let g4 = if g3.out_of_home { ghost_wander(g3, d) } else { g3 };
    &&& g.clicks < i32::MAX
    &&& (g.clicks + 1) % 60 == 0 ==> g.smart_seconds < i32::MAX
    &&& g3.out_of_home ==> wander_ok(g3, d)
    &&& set_inertia_ok(g4)
    &&& reach_fits(g4)
}

/// A frame of the ghost with draws `d` stays inside the maze: every
/// position and square it looks at exists, and no counter overflows.
pub open spec fn ghost_frame_ok(g: Phantom, m: Seq<Seq<char>>, d: Dice) -> bool {
    let g6 = ghost_prepare(g, m, d);
    let g7 = ghost_chase_step(g6, m);
    &&& prepare_ok(g, d)
    &&& fits_i32(g6.target.0 + 2) && fits_i32(g6.target.1 - 16)
    &&& fits_i32(g6.x + 4) && fits_i32(g6.y - 16)
    &&& chase_ok(g6, m, cell_of(g6.target.0 + 2), cell_of(g6.target.1 - 16), cell_of(g6.x + 4), cell_of(g6.y - 16))
    &&& !g7.stop ==> apply_ok(g7, m, d.blocked_x)
}

/// Inside a walled maze, a position a ghost may stand on keeps all its
/// probes off the outer wall.
pub proof fn lemma_ghost_move_ok_inside(m: Seq<Seq<char>>, nx: int, ny: int)
    requires
        walled(m),
        ghost_probes_inside(nx, ny),
        ghost_move_ok(m, nx, ny),
    ensures
        22 <= nx <= 783,
        43 <= ny <= 580,
{
    let r0 = (ny - 35) / 8;
    let r4 = (ny - 13) / 8;
    let c0 = (nx - 14) / 8;
    let c2 = (nx + 8) / 8;
    assert(0 <= r0 < MAZE_Y && 0 <= r4 < MAZE_Y && 0 <= c0 < MAZE_X && 0 <= c2 < MAZE_X);
    assert(square_at(m, ghost_probe_x(nx, 0), probe_y(ny, 0)) == m[r0][c0]);
    assert(square_at(m, ghost_probe_x(nx, 2), probe_y(ny, 0)) == m[r0][c2]);
    assert(square_at(m, ghost_probe_x(nx, 0), probe_y(ny, 4)) == m[r4][c0]);
    if nx < 22 {
        assert(c0 == 0);
        assert(m[r0][0] == 'X');
    }
    if nx > 783 {
        assert(c2 == MAZE_X - 1);
        assert(m[r0][MAZE_X - 1] == 'X');
    }
    if ny < 43 {
        assert(r0 == 0);
        assert(m[0][c0] == 'X');
    }
    if ny > 580 {
        assert(r4 == MAZE_Y - 1);
        assert(m[MAZE_Y - 1][c0] == 'X');
    }
}


/// The squared distance between two points, exactly.
pub fn distance_squared(x1: i32, y1: i32, x2: i32, y2: i32) -> (d: i128)
    ensures
        d == dist2(x1 as int, y1 as int, x2 as int, y2 as int),
{
    let dx = x2 as i128 - x1 as i128;
    let dy = y2 as i128 - y1 as i128;
    assert(dx * dx <= 0x1_0000_0000 * 0x1_0000_0000) by (nonlinear_arith)
        requires -0x1_0000_0000 <= dx <= 0x1_0000_0000;
    assert(dy * dy <= 0x1_0000_0000 * 0x1_0000_0000) by (nonlinear_arith)
        requires -0x1_0000_0000 <= dy <= 0x1_0000_0000;
    assert(dx * dx >= 0 && dy * dy >= 0) by (nonlinear_arith);
    dx * dx + dy * dy
}

/// Asked-for directions and inertia are all -1, 0 or 1.
pub open spec fn steady(g: Phantom) -> bool {
    unit(g.x_dir) && unit(g.y_dir) && unit(g.inertia_x) && unit(g.inertia_y)
}

proof fn lemma_turn_steady(g: Phantom, m: Seq<Seq<char>>, t: Turn)
    requires
        steady(g),
        fair_turn(t),
    ensures
        steady(ghost_turn(g, m, t)),
        ghost_turn(g, m, t).x == g.x && ghost_turn(g, m, t).y == g.y,
{
}

proof fn lemma_set_inertia_steady(g: Phantom, m: Seq<Seq<char>>, t: Turn)
    requires
        steady(g),
        fair_turn(t),
    ensures
        steady(ghost_set_inertia(g, m, t)),
        ghost_set_inertia(g, m, t).x == g.x && ghost_set_inertia(g, m, t).y == g.y,
{
    let g1 = if g.x_dir != 0 && ghost_move_ok(m, g.x + g.x_dir, g.y as int) {
        Phantom { inertia_x: g.x_dir, ..g }
    } else {
        g
    };
    let g2 = if g1.y_dir != 0 && ghost_move_ok(m, g1.x as int, g1.y + g1.y_dir) {
        Phantom { inertia_y: g1.y_dir, ..g1 }
    } else {
        g1
    };
    lemma_turn_steady(g2, m, t);
}

proof fn lemma_chase_steady(g: Phantom, m: Seq<Seq<char>>, pcx: int, pcy: int, gcx: int, gcy: int)
    requires
        steady(g),
    ensures
        steady(ghost_chase(g, m, pcx, pcy, gcx, gcy)),
        ghost_chase(g, m, pcx, pcy, gcx, gcy).x == g.x && ghost_chase(g, m, pcx, pcy, gcx, gcy).y == g.y,
{
}

proof fn lemma_apply_inertia_steps(g: Phantom, m: Seq<Seq<char>>, tx: Turn, ty: Turn)
    requires
        steady(g),
        apply_ok(g, m, tx),
        fair_turn(tx),
        fair_turn(ty),
    ensures
        steady(ghost_apply_inertia(g, m, tx, ty)),
        -1 <= ghost_apply_inertia(g, m, tx, ty).x - g.x <= 1,
        -1 <= ghost_apply_inertia(g, m, tx, ty).y - g.y <= 1,
{
    lemma_turn_steady(g, m, tx);
    let g1 = if g.inertia_x != 0 {
        if ghost_move_ok(m, g.x + g.inertia_x, g.y as int) {
            Phantom { x: (g.x + g.inertia_x) as i32, x_dir: 0, ..g }
        } else {
            Phantom { inertia_x: 0, ..ghost_turn(g, m, tx) }
        }
    } else {
        g
    };
    lemma_turn_steady(g1, m, ty);
}

/// What a ghost is like at each stage of its frame: at the chase step it
/// has not moved, keeps unit directions, and its current target is the old
/// one, its target, or a spot by the middle.
pub proof fn lemma_ghost_prepared(g: Phantom, m: Seq<Seq<char>>, d: Dice)
    requires
        steady(g),
        g.clicks < i32::MAX,
        fair_dice(d),
    ensures
        steady(ghost_prepare(g, m, d)),
        ghost_prepare(g, m, d).x == g.x && ghost_prepare(g, m, d).y == g.y,
        ghost_prepare(g, m, d).target == g.target,
        ghost_prepare(g, m, d).clicks == g.clicks + 1,
        ghost_ready(g) ==> g.smart_seconds <= ghost_prepare(g, m, d).smart_seconds <= g.smart_seconds + 3,
        ghost_ready(g) ==> near(ghost_chase_step(ghost_prepare(g, m, d), m).current_target.0 as int)
            && near(ghost_chase_step(ghost_prepare(g, m, d), m).current_target.1 as int),
        steady(ghost_chase_step(ghost_prepare(g, m, d), m)),
        ghost_chase_step(ghost_prepare(g, m, d), m).x == g.x,
        ghost_chase_step(ghost_prepare(g, m, d), m).y == g.y,
        ghost_chase_step(ghost_prepare(g, m, d), m).target == g.target,
        ghost_chase_step(ghost_prepare(g, m, d), m).clicks == g.clicks + 1,
        ghost_chase_step(ghost_prepare(g, m, d), m).smart_seconds == ghost_prepare(g, m, d).smart_seconds,
        ghost_chase_step(ghost_prepare(g, m, d), m).stop == g.stop,
{
    reveal(ghost_prepare);
    reveal(ghost_chase_step);
    let g3 = ghost_tick(g);
    let g4 = if g3.out_of_home { ghost_wander(g3, d) } else { g3 };
    assert(steady(g4) && g4.x == g.x && g4.y == g.y);
    lemma_set_inertia_steady(g4, m, d.settle);
    let g6 = ghost_prepare(g, m, d);
    lemma_chase_steady(g6, m, cell_of(g6.target.0 + 2), cell_of(g6.target.1 - 16), cell_of(g6.x + 4), cell_of(g6.y - 16));
}

/// The smart seconds among the first `s` that were not a catch-up from 19
/// past a twenty to the next twenty.
pub open spec fn smart_earned(s: int) -> int {
    s - s / 20
}

/// How many of the frames `1..=c` may earn a ghost a smart second: every
/// sixtieth frame, and the frames `1..=9` of every 1800, the only ones a
/// wander can fall on.
pub open spec fn smart_chances(c: int) -> int {
    c / 60 + 9 * (c / 1800) + if c % 1800 < 9 { c % 1800 } else { 9 }
}

/// The ghost has earned no more smart seconds than its frames allowed.
pub open spec fn smart_paced(g: Phantom) -> bool {
    &&& 0 <= g.smart_seconds
    &&& 0 <= g.clicks
    &&& smart_earned(g.smart_seconds as int) <= smart_chances(g.clicks as int)
}

proof fn lemma_earned_step(s: int)
    requires
        s >= 0,
    ensures
        smart_earned(s) <= smart_earned(s + 1) <= smart_earned(s) + 1,
        s % 20 == 19 ==> smart_earned(s + 1) == smart_earned(s),
{
}

proof fn lemma_chances_step(c: int)
    requires
        c >= 0,
    ensures
        smart_chances(c + 1) == smart_chances(c) + (if (c + 1) % 60 == 0 { 1int } else { 0int })
            + (if 1 <= (c + 1) % 1800 <= 9 { 1int } else { 0int }),
{
}

/// A paced ghost's smart seconds stay far below the counter's limit for as
/// long as its frame counter fits in an `i32`.
pub proof fn lemma_smart_paced_bound(g: Phantom)
    requires
        smart_paced(g),
    ensures
        g.smart_seconds <= 60_000_000,
{
    let s = g.smart_seconds as int;
    let c = g.clicks as int;
    assert(smart_chances(c) <= 46_528_817);
    assert(s - s / 20 <= 46_528_817);
}

/// A frame keeps a ready ghost paced: its smart seconds grow only on the
/// frames that allow it, or by the catch-up.
pub proof fn lemma_smart_paced_frame(g: Phantom, m: Seq<Seq<char>>, d: Dice)
    requires
        ghost_ready(g),
        smart_paced(g),
        fair_dice(d),
    ensures
        smart_paced(ghost_render(g, m, d)),
{
    reveal(ghost_render);
    reveal(ghost_prepare);
    lemma_ghost_prepared(g, m, d);
    let g3 = ghost_tick(g);
    let g4 = if g3.out_of_home { ghost_wander(g3, d) } else { g3 };
    let c = g.clicks as int;
    let s0 = g.smart_seconds as int;
    let s3 = g3.smart_seconds as int;
    lemma_chances_step(c);
    lemma_earned_step(s0);
    assert(smart_earned(s3) <= smart_chances(c) + (if (c + 1) % 60 == 0 { 1int } else { 0int }));
    if g3.out_of_home {
        let s1 = if s3 % 20 == 19 { s3 + 1 } else { s3 };
        lemma_earned_step(s3);
        assert(smart_earned(s1) == smart_earned(s3));
        lemma_earned_step(s1);
        assert(g4.smart_seconds == if (c + 1) % 1800 == d.wander_tick { s1 + 1 } else { s1 });
    }
    assert(smart_earned(g4.smart_seconds as int) <= smart_chances(c + 1));
    assert(ghost_prepare(g, m, d).smart_seconds == g4.smart_seconds);
    let g7 = ghost_chase_step(ghost_prepare(g, m, d), m);
    assert(ghost_render(g, m, d).smart_seconds == g7.smart_seconds);
    assert(ghost_render(g, m, d).clicks == g7.clicks);
}

/// A look in steps of `(ax, ay)` only ever finds squares on that ray: the
/// square looked for lies on the line through the start square, on the
/// side the steps go.
pub proof fn lemma_sight_on_ray(m: Seq<Seq<char>>, x: int, y: int, px: int, py: int, ax: int, ay: int)
    requires
        sees(m, x, y, px, py, ax, ay),
    ensures
        unit_step(ax, ay),
        ax == 0 ==> px == x && (ay == 1 ==> py >= y) && (ay == -1 ==> py <= y),
        ay == 0 ==> py == y && (ax == 1 ==> px >= x) && (ax == -1 ==> px <= x),
    decreases (if ax == 1 { 100 - x } else if ax == -1 { x } else if ay == 1 { 72 - y } else { y }),
{
    if !(x == px && y == py) {
        lemma_sight_on_ray(m, x + ax, y + ay, px, py, ax, ay);
    }
}

/// A wall on the line of squares from `(x, y)` to the square `k` steps of
/// `(ax, ay)` away, at step `i` (the start square or any before the end,
/// or the end square itself), hides that square.
pub proof fn lemma_wall_blocks_sight(m: Seq<Seq<char>>, x: int, y: int, ax: int, ay: int, k: int, i: int)
    requires
        unit_step(ax, ay),
        0 <= i <= k,
        m[y + i * ay][x + i * ax] == 'X',
    ensures
        !sees(m, x, y, x + k * ax, y + k * ay, ax, ay),
    decreases i,
{
    if i == 0 {
        assert(i * ay == 0 && i * ax == 0) by (nonlinear_arith)
            requires i == 0;
        assert(m[y][x] == 'X');
    } else {
        assert((k - 1) * ax + ax == k * ax && (k - 1) * ay + ay == k * ay) by (nonlinear_arith);
        assert((i - 1) * ax + ax == i * ax && (i - 1) * ay + ay == i * ay) by (nonlinear_arith);
        assert(k * ax != 0 || k * ay != 0) by (nonlinear_arith)
            requires unit_step(ax, ay), k > 0;
        lemma_wall_blocks_sight(m, x + ax, y + ay, ax, ay, k - 1, i - 1);
    }
}

/// A player whose square lies along one of the four lines from the ghost's
/// square, with a wall on the way (or on either end), is not seen: the ghost
/// neither turns towards it nor takes its target as the one to head for.
pub proof fn lemma_wall_hides_player(
    g: Phantom,
    m: Seq<Seq<char>>,
    gcx: int,
    gcy: int,
    ax: int,
    ay: int,
    k: int,
    i: int,
)
    requires
        unit_step(ax, ay),
        0 <= i <= k,
        m[gcy + i * ay][gcx + i * ax] == 'X',
    ensures
        ghost_look(g, m, gcx + k * ax, gcy + k * ay, gcx, gcy) == (g, false),
        ghost_chase(g, m, gcx + k * ax, gcy + k * ay, gcx, gcy) == g,
{
    let pcx = gcx + k * ax;
    let pcy = gcy + k * ay;
    lemma_wall_blocks_sight(m, gcx, gcy, ax, ay, k, i);
    if k == 0 {
        assert(i * ay == 0 && i * ax == 0 && k * ax == 0 && k * ay == 0) by (nonlinear_arith)
            requires i == 0, k == 0;
        assert(m[gcy][gcx] == 'X');
    } else {
        assert(ax != 0 ==> (ax == 1 ==> pcx > gcx) && (ax == -1 ==> pcx < gcx) && pcy == gcy) by (nonlinear_arith)
            requires unit_step(ax, ay), k > 0, pcx == gcx + k * ax, pcy == gcy + k * ay;
        assert(ay != 0 ==> (ay == 1 ==> pcy > gcy) && (ay == -1 ==> pcy < gcy) && pcx == gcx) by (nonlinear_arith)
            requires unit_step(ax, ay), k > 0, pcx == gcx + k * ax, pcy == gcy + k * ay;
        if sees(m, gcx, gcy, pcx, pcy, -1, 0) {
            lemma_sight_on_ray(m, gcx, gcy, pcx, pcy, -1, 0);
        }
        if sees(m, gcx, gcy, pcx, pcy, 1, 0) {
            lemma_sight_on_ray(m, gcx, gcy, pcx, pcy, 1, 0);
        }
        if sees(m, gcx, gcy, pcx, pcy, 0, -1) {
            lemma_sight_on_ray(m, gcx, gcy, pcx, pcy, 0, -1);
        }
        if sees(m, gcx, gcy, pcx, pcy, 0, 1) {
            lemma_sight_on_ray(m, gcx, gcy, pcx, pcy, 0, 1);
        }
    }
}

/// In a frame, the chase step leaves the ghost as it was when a wall stands
/// between its square and the square of its target (the player) along one
/// of the four lines: no turn, no new current target.
pub proof fn lemma_wall_hides_player_in_frame(g6: Phantom, m: Seq<Seq<char>>, ax: int, ay: int, k: int, i: int)
    requires
        unit_step(ax, ay),
        0 <= i <= k,
        cell_of(g6.target.0 + 2) == cell_of(g6.x + 4) + k * ax,
        cell_of(g6.target.1 - 16) == cell_of(g6.y - 16) + k * ay,
        m[cell_of(g6.y - 16) + i * ay][cell_of(g6.x + 4) + i * ax] == 'X',
    ensures
        ghost_chase_step(g6, m) == g6,
{
    reveal(ghost_chase_step);
    lemma_wall_hides_player(g6, m, cell_of(g6.x + 4), cell_of(g6.y - 16), ax, ay, k, i);
}

/// A ready ghost can always take a frame with fair draws.
pub proof fn lemma_ghost_ready_frame_ok(g: Phantom, m: Seq<Seq<char>>, d: Dice)
    requires
        ghost_ready(g),
        fair_dice(d),
    ensures
        ghost_frame_ok(g, m, d),
{
    reveal(ghost_prepare);
    lemma_ghost_prepared(g, m, d);
    let g3 = ghost_tick(g);
    let g4 = if g3.out_of_home { ghost_wander(g3, d) } else { g3 };
    assert(steady(g4) && g4.x == g.x && g4.y == g.y);
    let g6 = ghost_prepare(g, m, d);
    let g7 = ghost_chase_step(g6, m);
    assert(chase_ok(g6, m, cell_of(g6.target.0 + 2), cell_of(g6.target.1 - 16), cell_of(g6.x + 4), cell_of(g6.y - 16)));
    lemma_turn_steady(g7, m, d.blocked_x);
    let g8 = ghost_step_x(g7, m, d.blocked_x);
    assert(-1 <= g8.x - g.x <= 1 && g8.y == g.y);
    assert(steady(g8));
    assert(apply_ok(g7, m, d.blocked_x));
}

/// A frame of a ghost with unit directions, whose frame stays inside the
/// maze, moves it at most one pixel along each axis, not at all when it is
/// stopped, and keeps its directions units.
pub proof fn lemma_ghost_frame_steps(g: Phantom, m: Seq<Seq<char>>, d: Dice)
    requires
        steady(g),
        ghost_frame_ok(g, m, d),
        fair_dice(d),
    ensures
        -1 <= ghost_render(g, m, d).x - g.x <= 1,
        -1 <= ghost_render(g, m, d).y - g.y <= 1,
        g.stop ==> ghost_render(g, m, d).x == g.x && ghost_render(g, m, d).y == g.y,
        steady(ghost_render(g, m, d)),
{
    reveal(ghost_render);
    lemma_ghost_prepared(g, m, d);
    let g7 = ghost_chase_step(ghost_prepare(g, m, d), m);
    if !g7.stop {
        lemma_apply_inertia_steps(g7, m, d.blocked_x, d.blocked_y);
    }
}

/// No frame, turn or reset moves a ghost's start, so a reset always brings
/// it back to where it was made.
pub proof fn lemma_start_kept(g: Phantom, m: Seq<Seq<char>>, d: Dice, t: Turn)
    ensures
        ghost_render(g, m, d).startx == g.startx && ghost_render(g, m, d).starty == g.starty,
        ghost_turn(g, m, t).startx == g.startx && ghost_turn(g, m, t).starty == g.starty,
        ghost_at_start(g).startx == g.startx && ghost_at_start(g).starty == g.starty,
        ghost_at_start(g).x == g.startx && ghost_at_start(g).y == g.starty,
        ghost_at_start(ghost_render(g, m, d)).x == g.startx && ghost_at_start(ghost_render(g, m, d)).y == g.starty,
{
    reveal(ghost_render);
    reveal(ghost_prepare);
    reveal(ghost_chase_step);
}

/// One of the things done to a ghost: a frame with its draws, a turn with
/// its draw, or a reset.
pub enum GhostStep {
    Frame(Dice),
    Turning(Turn),
    Reset,
}

/// The ghost after the steps, taken in order, each in the maze paired with it.
pub open spec fn ghost_after(g: Phantom, steps: Seq<(Seq<Seq<char>>, GhostStep)>) -> Phantom
    decreases steps.len(),
{
    if steps.len() == 0 {
        g
    } else {
        let h = ghost_after(g, steps.drop_last());
        let (m, step) = steps.last();
        match step {
            GhostStep::Frame(d) => ghost_render(h, m, d),
            GhostStep::Turning(t) => ghost_turn(h, m, t),
            GhostStep::Reset => ghost_at_start(h),
        }
    }
}

/// Whatever frames, turns and resets a ghost has been through, its start is
/// where `new` put it, so a reset brings it back there, heading up.
pub proof fn lemma_reset_returns_to_start(
    x_dir: i32,
    y_dir: i32,
    x: i32,
    y: i32,
    target_x: i32,
    target_y: i32,
    steps: Seq<(Seq<Seq<char>>, GhostStep)>,
)
    ensures
        ghost_after(Phantom::new_spec(x_dir, y_dir, x, y, target_x, target_y), steps).startx == x,
        ghost_after(Phantom::new_spec(x_dir, y_dir, x, y, target_x, target_y), steps).starty == y,
        ({
            let g = ghost_at_start(ghost_after(Phantom::new_spec(x_dir, y_dir, x, y, target_x, target_y), steps));
            g.x == x && g.y == y && g.x_dir == 0 && g.y_dir == -1 && g.inertia_x == 0 && g.inertia_y == -1
        }),
    decreases steps.len(),
{
    if steps.len() > 0 {
        lemma_reset_returns_to_start(x_dir, y_dir, x, y, target_x, target_y, steps.drop_last());
        let h = ghost_after(Phantom::new_spec(x_dir, y_dir, x, y, target_x, target_y), steps.drop_last());
        let (m, step) = steps.last();
        match step {
            GhostStep::Frame(d) => lemma_start_kept(h, m, d, Turn { x: 0, y: 0 }),
            GhostStep::Turning(t) => lemma_start_kept(h, m, Dice { wander_tick: 0, wander_x: 0, wander_y: 0, settle: t, blocked_x: t, blocked_y: t }, t),
            GhostStep::Reset => {},
        }
    }
}

impl Phantom {
    /// The ghost that `new` makes.
    pub open spec fn new_spec(x_dir: i32, y_dir: i32, x: i32, y: i32, target_x: i32, target_y: i32) -> Phantom {
        Phantom {
            x, y, x_dir, y_dir, inertia_x: 0, inertia_y: 0, target: (x, y),
            current_target: (target_x, target_y), clicks: 0, smart_seconds: 0,
            startx: x, starty: y, stop: false, out_of_home: false,
        }
    }

    /// A ghost at `(x, y)` asking for direction `(x_dir, y_dir)` and heading
    /// for `(target_x, target_y)`; `target` starts at its own position.
    pub fn new(x_dir: i32, y_dir: i32, x: i32, y: i32, target_x: i32, target_y: i32) -> (g: Phantom)
        ensures
            g == Phantom::new_spec(x_dir, y_dir, x, y, target_x, target_y),
    {
        Phantom {
            x: x,
            y: y,
            x_dir: x_dir,
            y_dir: y_dir,
            inertia_x: 0,
            inertia_y: 0,
            target: (x, y),
            current_target: (target_x, target_y),
            clicks: 0,
            smart_seconds: 0,
            startx: x,
            starty: y,
            stop: false,
            out_of_home: false,
        }
    }

    /// Sends the ghost back to where it started, heading up.
    pub fn ghost_reset(&mut self)
        ensures
            *final(self) == ghost_at_start(*old(self)),
    {
        self.x = self.startx;
        self.y = self.starty;
        self.x_dir = 0;
        self.inertia_x = 0;
        self.y_dir = -1;
        self.inertia_y = -1;
    }

    /// One frame of the ghost, with fresh random draws: the result is that of
    /// `render_with` for draws in the ranges the game uses.
    pub fn render(&mut self, maze: &mut Vec<Vec<char>>)
        requires
            forall|d: Dice| fair_dice(d) ==> #[trigger] ghost_frame_ok(*old(self), grid(old(maze)), d),
            well_shaped(grid(old(maze))),
        ensures
            *final(maze) == *old(maze),
            exists|d: Dice| fair_dice(d) && *final(self) == ghost_render(*old(self), grid(old(maze)), d),
            steady(*old(self)) ==> {
                &&& steady(*final(self))
                &&& -1 <= final(self).x - old(self).x <= 1 && -1 <= final(self).y - old(self).y <= 1
                &&& old(self).stop ==> final(self).x == old(self).x && final(self).y == old(self).y
            },
    {
        let d = roll_dice();
        assert(ghost_frame_ok(*self, grid(maze), d));
        self.render_with(maze, &d);
    }

    /// One frame of the ghost with the random draws `d`: count the frame, maybe
    /// wander, steer, retarget, chase a visible player, and move.
    pub fn render_with(&mut self, maze: &Vec<Vec<char>>, d: &Dice)
        requires
            ghost_frame_ok(*old(self), grid(maze), *d),
            well_shaped(grid(maze)),
            fair_dice(*d),
        ensures
            *final(self) == ghost_render(*old(self), grid(maze), *d),
            final(self).clicks == old(self).clicks + 1,
            final(self).target == old(self).target,
            final(self).startx == old(self).startx && final(self).starty == old(self).starty,
            final(self).stop == old(self).stop,
            steady(*old(self)) ==> {
                &&& steady(*final(self))
                &&& -1 <= final(self).x - old(self).x <= 1 && -1 <= final(self).y - old(self).y <= 1
                &&& old(self).stop ==> final(self).x == old(self).x && final(self).y == old(self).y
            },
            ghost_ready(*old(self)) ==> {
                &&& walled(grid(maze)) ==> ghost_in_bounds(*final(self))
                &&& old(self).smart_seconds <= final(self).smart_seconds <= old(self).smart_seconds + 3
                &&& near(final(self).current_target.0 as int) && near(final(self).current_target.1 as int)
                &&& smart_paced(*old(self)) ==> smart_paced(*final(self))
            },
    {
        let ghost g0 = *self;
        let ghost m = grid(maze);
        self.prepare(maze, d);
        let ghost g6 = *self;
        let (player_cellx, player_celly) = xy_to_cell(self.target.0 + 2, self.target.1 - SQUARE_SIZE as i32 * 2);
        let (ghost_cellx, ghost_celly) = xy_to_cell(self.x + 4, self.y - 16);
        self.consider_chasing_player_if_directly_visible(maze, player_cellx, player_celly, ghost_cellx, ghost_celly);
        let ghost g7 = *self;
        assert(g7 == ghost_chase_step(g6, m)) by {
            reveal(ghost_chase_step);
        }
        proof {
            if steady(g0) {
                lemma_ghost_prepared(g0, m, *d);
            }
        }
        if !self.stop {
            self.apply_inertia(maze, &d.blocked_x, &d.blocked_y);
        }
        proof {
            reveal(ghost_render);
            if steady(g0) {
                lemma_ghost_frame_steps(g0, m, *d);
            }
            if ghost_ready(g0) && smart_paced(g0) {
                lemma_smart_paced_frame(g0, m, *d);
            }
        }
    }

    fn prepare(&mut self, maze: &Vec<Vec<char>>, d: &Dice)
        requires
            prepare_ok(*old(self), *d),
            well_shaped(grid(maze)),
            fair_dice(*d),
        ensures
            *final(self) == ghost_prepare(*old(self), grid(maze), *d),
            final(self).clicks == old(self).clicks + 1,
            final(self).target == old(self).target,
            final(self).startx == old(self).startx && final(self).starty == old(self).starty,
            final(self).stop == old(self).stop,
    {
        let ghost g0 = *self;
        self.clicks = self.clicks + 1;
        if self.clicks % 60 == 0 {
            self.smart_seconds = self.smart_seconds + 1;
        }
        if self.clicks % 240 == 0 {
            self.out_of_home = true;
        }
        assert(*self == ghost_tick(g0));
        if self.out_of_home {
            self.set_current_target_to_latest_target(d);
        }
        self.set_inertia(maze, &d.settle);
        self.update_current_target_if_reached();
        assert(*self == ghost_prepare(g0, grid(maze), *d)) by {
            reveal(ghost_prepare);
        }
    }

    /// Picks a new direction for a stuck ghost, drawing the random turn it
    /// may need.
    pub fn change_direction(&mut self, maze: &mut Vec<Vec<char>>)
        requires
            turn_ok(*old(self)),
            turn_reads_maze(*old(self)) ==> well_shaped(grid(old(maze))),
        ensures
            *final(maze) == *old(maze),
            exists|t: Turn| fair_turn(t) && *final(self) == ghost_turn(*old(self), grid(old(maze)), t),
    {
        let t = roll_turn();
        self.turn(maze, &t);
    }

    fn turn(&mut self, maze: &Vec<Vec<char>>, t: &Turn)
        requires
            turn_ok(*old(self)),
            turn_reads_maze(*old(self)) ==> well_shaped(grid(maze)),
            fair_turn(*t),
        ensures
            *final(self) == ghost_turn(*old(self), grid(maze), *t),
            final(self).x == old(self).x && final(self).y == old(self).y,
            final(self).clicks == old(self).clicks && final(self).smart_seconds == old(self).smart_seconds,
            final(self).target == old(self).target,
            final(self).startx == old(self).startx && final(self).starty == old(self).starty,
            final(self).stop == old(self).stop,
    {
        if self.inertia_x != 0 && self.inertia_x == self.x_dir && self.inertia_y == 0 {
            self.x_dir = -self.x_dir;
        } else if self.inertia_y != 0 && self.inertia_y == self.y_dir && self.inertia_x == 0 {
            self.y_dir = -self.y_dir;
        } else {
            if self.inertia_x != 0 {
                self.y_dir = self.up_down_better(maze);
                self.x_dir = 0;
                self.inertia_x = 0;
            } else if self.inertia_y != 0 {
                self.x_dir = self.left_right_better(maze);
                self.y_dir = 0;
                self.inertia_y = 0;
            } else {
                self.x_dir = t.x;
                self.y_dir = t.y;
            }
        }
    }

    fn left_right_better(&self, maze: &Vec<Vec<char>>) -> (r: i32)
        requires
            ghost_probes_inside(self.x - 1, self.y as int),
            ghost_probes_inside(self.x + 2, self.y as int),
            near(self.current_target.0 as int) && near(self.current_target.1 as int),
            well_shaped(grid(maze)),
        ensures
            r == ghost_left_right(*self, grid(maze)),
    {
        let left = distance_squared(self.x - SQUARE_SIZE as i32 * 3, self.y, self.current_target.0, self.current_target.1);
        let right = distance_squared(self.x + SQUARE_SIZE as i32 * 3, self.y, self.current_target.0, self.current_target.1);
        let leftok = self.check_if_move_ok(maze, self.x - 1, self.y);
        let rightok = self.check_if_move_ok(maze, self.x + 2, self.y);
        if leftok && left < right {
            return -1;
        } else if rightok && right < left {
            return 1;
        }
        if leftok {
            return -1;
        }
        if rightok {
            return 1;
        }
        0
    }

    fn up_down_better(&self, maze: &Vec<Vec<char>>) -> (r: i32)
        requires
            ghost_probes_inside(self.x as int, self.y - 1),
            ghost_probes_inside(self.x as int, self.y + 1),
            near(self.current_target.0 as int) && near(self.current_target.1 as int),
            well_shaped(grid(maze)),
        ensures
            r == ghost_up_down(*self, grid(maze)),
    {
        let down = distance_squared(self.x, self.y + SQUARE_SIZE as i32 * 3, self.current_target.0, self.current_target.1);
        let up = distance_squared(self.x, self.y - SQUARE_SIZE as i32 * 3, self.current_target.0, self.current_target.1);
        let upok = self.check_if_move_ok(maze, self.x, self.y - 1);
        let downok = self.check_if_move_ok(maze, self.x, self.y + 1);
        if upok && up < down {
            return -1;
        } else if downok && down < up {
            return 1;
        }
        if upok {
            return -1;
        }
        if downok {
            return 1;
        }
        0
    }

    fn update_current_target_if_reached(&mut self)
        requires
            reach_fits(*old(self)),
        ensures
            *final(self) == ghost_target_reached(*old(self)),
            final(self).clicks == old(self).clicks,
            final(self).target == old(self).target,
            final(self).startx == old(self).startx && final(self).starty == old(self).starty,
            final(self).stop == old(self).stop,
    {
        let away = distance_squared(self.x, self.y, self.current_target.0, self.current_target.1);
        if away < (SQUARE_SIZE * SQUARE_SIZE) as i128 {
            self.out_of_home = true;
            self.current_target = self.target;
        }
    }

    fn consider_chasing_player_if_directly_visible(
        &mut self,
        maze: &Vec<Vec<char>>,
        player_cellx: i32,
        player_celly: i32,
        ghost_cellx: i32,
        ghost_celly: i32,
    )
        requires
            chase_ok(*old(self), grid(maze), player_cellx as int, player_celly as int, ghost_cellx as int, ghost_celly as int),
            well_shaped(grid(maze)),
        ensures
            *final(self) == ghost_chase(*old(self), grid(maze), player_cellx as int, player_celly as int,
                ghost_cellx as int, ghost_celly as int),
            final(self).clicks == old(self).clicks,
            final(self).target == old(self).target,
            final(self).startx == old(self).startx && final(self).starty == old(self).starty,
            final(self).stop == old(self).stop,
    {
        if self.x % 8 != 0 && self.y % 8 != 0 && self.smart_seconds % 30 > 8 {
            let old_x = self.x_dir;
            let old_y = self.y_dir;
            let old_inertia_x = self.inertia_x;
            let old_inertia_y = self.inertia_y;
            let visible = self.check_if_visible_better_route(maze, player_cellx, player_celly, ghost_cellx, ghost_celly);
            if visible {
                if self.check_if_move_ok(maze, self.x + self.x_dir * 3, self.y + self.y_dir * 2) {
                    self.current_target = self.target;
                } else {
                    self.x_dir = old_x;
                    self.y_dir = old_y;
                    self.inertia_x = old_inertia_x;
                    self.inertia_y = old_inertia_y;
                }
            }
        }
    }

    fn set_current_target_to_latest_target(&mut self, d: &Dice)
        requires
            wander_ok(*old(self), *d),
            fair_dice(*d),
        ensures
            *final(self) == ghost_wander(*old(self), *d),
            final(self).clicks == old(self).clicks,
            final(self).target == old(self).target,
            final(self).startx == old(self).startx && final(self).starty == old(self).starty,
            final(self).stop == old(self).stop,
    {
        if self.smart_seconds % 20 == 19 {
            self.smart_seconds = self.smart_seconds + 1;
            self.current_target = self.target;
        }
        if self.clicks % 1800 == d.wander_tick {
            self.smart_seconds = self.smart_seconds + 1;
            let half_square = SQUARE_SIZE as i32 / 2;
            let middle_x = MAZE_WIDTH as i32 / 2;
            let middle_y = MAZE_HEIGHT as i32 / 2;
            self.current_target.0 = d.wander_x * half_square + middle_x;
            self.current_target.1 = d.wander_y * half_square + middle_y;
        }
    }

    fn check_if_visible_better_route(
        &mut self,
        maze: &Vec<Vec<char>>,
        player_cellx: i32,
        player_celly: i32,
        ghost_cellx: i32,
        ghost_celly: i32,
    ) -> (r: bool)
        requires
            well_shaped(grid(maze)),
        ensures
            (*final(self), r) == ghost_look(*old(self), grid(maze), player_cellx as int, player_celly as int,
                ghost_cellx as int, ghost_celly as int),
    {
        if Phantom::look_along(maze, ghost_cellx, ghost_celly, player_cellx, player_celly, -1, 0) {
            self.x_dir = -1;
            self.y_dir = 0;
            self.inertia_x = self.x_dir;
            self.inertia_y = 0;
            return true;
        }
        if Phantom::look_along(maze, ghost_cellx, ghost_celly, player_cellx, player_celly, 1, 0) {
            self.x_dir = 1;
            self.y_dir = 0;
            self.inertia_x = self.x_dir;
            self.inertia_y = 0;
            return true;
        }
        if Phantom::look_along(maze, ghost_cellx, ghost_celly, player_cellx, player_celly, 0, -1) {
            self.y_dir = -1;
            self.x_dir = 0;
            self.inertia_x = 0;
            self.inertia_y = self.y_dir;
            return true;
        }
        if Phantom::look_along(maze, ghost_cellx, ghost_celly, player_cellx, player_celly, 0, 1) {
            self.y_dir = 1;
            self.x_dir = 0;
            self.inertia_x = 0;
            self.inertia_y = self.y_dir;
            return true;
        }
        false
    }

    fn look_along(
        maze: &Vec<Vec<char>>,
        ghost_cellx: i32,
        ghost_celly: i32,
        player_cellx: i32,
        player_celly: i32,
        addx: i32,
        addy: i32,
    ) -> (r: bool)
        requires
            well_shaped(grid(maze)),
            unit_step(addx as int, addy as int),
        ensures
            r == sees(grid(maze), ghost_cellx as int, ghost_celly as int, player_cellx as int,
                player_celly as int, addx as int, addy as int),
    {
        let ghost m = grid(maze);
        let mut y = ghost_celly;
        let mut x = ghost_cellx;
        loop
            invariant
                m == grid(maze),
                well_shaped(m),
                unit_step(addx as int, addy as int),
                sees(m, x as int, y as int, player_cellx as int, player_celly as int, addx as int, addy as int)
                    == sees(m, ghost_cellx as int, ghost_celly as int, player_cellx as int, player_celly as int,
                    addx as int, addy as int),
            decreases (if addx == 1 { 100 - x } else if addx == -1 { x as int } else if addy == 1 { 72 - y } else { y as int }),
        {
            if !(x > 0 && x < MAZE_X as i32 && y > 0 && y < MAZE_Y as i32) {
                return false;
            }
            assert(m[y as int] == maze@[y as int]@);
            if maze[y as usize][x as usize] == 'X' {
                return false;
            }
            if player_cellx == x && player_celly == y {
                return true;
            }
            x = x + addx;
            y = y + addy;
        }
    }

    fn set_inertia(&mut self, maze: &Vec<Vec<char>>, t: &Turn)
        requires
            set_inertia_ok(*old(self)),
            well_shaped(grid(maze)),
            fair_turn(*t),
        ensures
            *final(self) == ghost_set_inertia(*old(self), grid(maze), *t),
            final(self).clicks == old(self).clicks,
            final(self).target == old(self).target,
            final(self).startx == old(self).startx && final(self).starty == old(self).starty,
            final(self).stop == old(self).stop,
    {
        if self.x_dir != 0 {
            let new_x = self.x + self.x_dir;
            if self.check_if_move_ok(maze, new_x, self.y) {
                self.inertia_x = self.x_dir;
            }
        }
        if self.y_dir != 0 {
            let new_y = self.y + self.y_dir;
            if self.check_if_move_ok(maze, self.x, new_y) {
                self.inertia_y = self.y_dir;
            }
        }
        if self.inertia_x == 0 && self.inertia_y == 0 && self.x_dir == 0 && self.y_dir == 0 {
            self.turn(maze, t);
        }
    }

    fn apply_inertia(&mut self, maze: &Vec<Vec<char>>, tx: &Turn, ty: &Turn)
        requires
            apply_ok(*old(self), grid(maze), *tx),
            well_shaped(grid(maze)),
            fair_turn(*tx) && fair_turn(*ty),
        ensures
            *final(self) == ghost_apply_inertia(*old(self), grid(maze), *tx, *ty),
            walled(grid(maze)) && ghost_in_bounds(*old(self)) && steady(*old(self)) ==> ghost_in_bounds(*final(self)),
            final(self).clicks == old(self).clicks,
            final(self).target == old(self).target,
            final(self).startx == old(self).startx && final(self).starty == old(self).starty,
            final(self).stop == old(self).stop,
    {
        let ghost m = grid(maze);
        if self.inertia_x != 0 {
            let new_x = self.x + self.inertia_x;
            if self.check_if_move_ok(maze, new_x, self.y) {
                proof {
                    if walled(m) {
                        lemma_ghost_move_ok_inside(m, new_x as int, self.y as int);
                    }
                }
                self.x = self.x + self.inertia_x;
                self.x_dir = 0;
            } else {
                self.turn(maze, tx);
                self.inertia_x = 0;
            }
        }
        if self.inertia_y != 0 {
            let new_y = self.y + self.inertia_y;
            if self.check_if_move_ok(maze, self.x, new_y) {
                proof {
                    if walled(m) {
                        lemma_ghost_move_ok_inside(m, self.x as int, new_y as int);
                    }
                }
                self.y = self.y + self.inertia_y;
                self.y_dir = 0;
            } else {
                self.turn(maze, ty);
                self.inertia_y = 0;
            }
        }
    }

    fn check_if_move_ok(&self, maze: &Vec<Vec<char>>, new_x: i32, new_y: i32) -> (r: bool)
        requires
            well_shaped(grid(maze)),
            ghost_probes_inside(new_x as int, new_y as int),
        ensures
            r == ghost_move_ok(grid(maze), new_x as int, new_y as int),
    {
        let ghost m = grid(maze);
        let half_square = SQUARE_SIZE as i32 / 2;
        let centre_x = new_x + half_square;
        let centre_y = new_y - half_square;
        let xarray: [i32; 3] = [centre_x - 18, centre_x, centre_x + 4];
        let yarray: [i32; 5] = [centre_y - 31, centre_y - 24, centre_y - 19, centre_y - 12, centre_y - 9];
        let mut all_okay = true;
        let mut j: usize = 0;
        while j < 5
            invariant
                m == grid(maze),
                well_shaped(m),
                ghost_probes_inside(new_x as int, new_y as int),
                j <= 5,
                forall|i: int| 0 <= i < 3 ==> xarray@[i] == #[trigger] ghost_probe_x(new_x as int, i),
                forall|jj: int| 0 <= jj < 5 ==> yarray@[jj] == #[trigger] probe_y(new_y as int, jj),
                all_okay <==> forall|ii: int, jj: int| 0 <= ii < 3 && 0 <= jj < j ==>
                    #[trigger] square_at(m, ghost_probe_x(new_x as int, ii), probe_y(new_y as int, jj)) != 'X',
            decreases 5 - j,
        {
            let mut i: usize = 0;
            while i < 3
                invariant
                    m == grid(maze),
                    well_shaped(m),
                    ghost_probes_inside(new_x as int, new_y as int),
                    j < 5,
                    i <= 3,
                    forall|i: int| 0 <= i < 3 ==> xarray@[i] == #[trigger] ghost_probe_x(new_x as int, i),
                    forall|jj: int| 0 <= jj < 5 ==> yarray@[jj] == #[trigger] probe_y(new_y as int, jj),
                    all_okay <==> forall|ii: int, jj: int| 0 <= ii < 3 && 0 <= jj <= j && (jj < j || ii < i) ==>
                        #[trigger] square_at(m, ghost_probe_x(new_x as int, ii), probe_y(new_y as int, jj)) != 'X',
                decreases 3 - i,
            {
                let py = yarray[j];
                let px = xarray[i];
                assert(py == probe_y(new_y as int, j as int));
                assert(px == ghost_probe_x(new_x as int, i as int));
                let r = py as usize / SQUARE_SIZE;
                let c = px as usize / SQUARE_SIZE;
                assert(m[r as int] == maze@[r as int]@);
                let ch = maze[r][c];
                assert(square_at(m, ghost_probe_x(new_x as int, i as int), probe_y(new_y as int, j as int)) == ch);
                if ch == 'X' {
                    all_okay = false;
                }
                i = i + 1;
            }
            j = j + 1;
        }
        all_okay
    }
}

} // verus!
