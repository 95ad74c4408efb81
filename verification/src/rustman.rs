use vstd::prelude::*;

pub mod maze_maker;
pub mod player_maker;
pub mod ghost_maker;
pub mod sound;
pub mod game;
pub mod title;

use crate::rustman::ghost_maker::{
    fair_dice, ghost_at_start, ghost_frame_ok, ghost_in_bounds, ghost_ready, ghost_render, near, roll_dice, smart_paced, Dice, Phantom,
};
use crate::rustman::maze_maker::{cell_of, grid, walled, well_shaped, MAZE_HEIGHT, MAZE_WIDTH, SQUARE_SIZE};
use crate::rustman::player_maker::{player_at_start, unit, Player};
use crate::rustman::sound::{DEAD, GOTGHOST};

verus! {

/// Below this many frames of power pill left, the ghosts blink.
pub const BLINK_TIME: i32 = 100;

/// A ghost and the player share a maze square.
pub open spec fn caught(p: Player, g: Phantom) -> bool {
    cell_of(g.x as int) == cell_of(p.x as int) && cell_of(g.y as int) == cell_of(p.y as int)
}

/// How many of the first `n` ghosts share the player's square.
pub open spec fn catch_count(p: Player, gs: Seq<Phantom>, n: int) -> int
    decreases n,
{
    if n <= 0 {
        0
    } else {
        catch_count(p, gs, n - 1) + if caught(p, gs[n - 1]) { 1int } else { 0int }
    }
}

/// Every ghost on the player's square goes back to its start.
pub open spec fn ghosts_after_catch(p: Player, gs: Seq<Phantom>) -> Seq<Phantom> {
    gs.map_values(|g: Phantom| if caught(p, g) { ghost_at_start(g) } else { g })
}

/// Without a power pill, each ghost on the player's square costs a life and
/// sends the player back to the start; with one, the player is untouched.
pub open spec fn player_after_catch(p: Player, gs: Seq<Phantom>, n: int) -> Player {
    if p.super_pill == 0 && catch_count(p, gs, n) > 0 {
        Player { lives: (p.lives - catch_count(p, gs, n)) as i32, ..player_at_start(p) }
    } else {
        p
    }
}

/// One sound per catch: the player's death, or a ghost eaten.
pub open spec fn catch_sounds(p: Player, gs: Seq<Phantom>, n: int) -> Seq<usize> {
    Seq::new(catch_count(p, gs, n) as nat, |i: int| if p.super_pill == 0 { DEAD } else { GOTGHOST })
}

pub proof fn lemma_catch_count_bounds(p: Player, gs: Seq<Phantom>, n: int)
    requires
        0 <= n,
    ensures
        0 <= catch_count(p, gs, n) <= n,
    decreases n,
{
    if n > 0 {
        lemma_catch_count_bounds(p, gs, n - 1);
    }
}

/// Only a ghost in the player's own square is caught: a ghost in another
/// column or another row of squares is left where it is, and when every
/// ghost is elsewhere nobody is caught, no sound plays and the player keeps
/// its lives and place.  A ghost in the player's square goes home, and
/// without a power pill costs the player a life (while lives stay in range).
pub proof fn lemma_catch_only_in_same_square(p: Player, gs: Seq<Phantom>)
    ensures
        forall|i: int| 0 <= i < gs.len() && (cell_of(gs[i].x as int) != cell_of(p.x as int) || cell_of(gs[i].y as int) != cell_of(p.y as int))
            ==> #[trigger] ghosts_after_catch(p, gs)[i] == gs[i],
        forall|i: int| 0 <= i < gs.len() && cell_of(gs[i].x as int) == cell_of(p.x as int) && cell_of(gs[i].y as int) == cell_of(p.y as int)
            ==> #[trigger] ghosts_after_catch(p, gs)[i] == ghost_at_start(gs[i]),
        (forall|i: int| 0 <= i < gs.len() ==> cell_of(#[trigger] gs[i].x as int) != cell_of(p.x as int) || cell_of(gs[i].y as int) != cell_of(p.y as int))
            ==> player_after_catch(p, gs, gs.len() as int) == p && catch_sounds(p, gs, gs.len() as int).len() == 0,
        p.super_pill == 0 && p.lives - gs.len() >= i32::MIN && (exists|i: int| 0 <= i < gs.len() && cell_of(#[trigger] gs[i].x as int) == cell_of(p.x as int) && cell_of(gs[i].y as int) == cell_of(p.y as int))
            ==> player_after_catch(p, gs, gs.len() as int).lives < p.lives,
{
    lemma_catch_count_bounds(p, gs, gs.len() as int);
    if forall|i: int| 0 <= i < gs.len() ==> cell_of(#[trigger] gs[i].x as int) != cell_of(p.x as int) || cell_of(gs[i].y as int) != cell_of(p.y as int) {
        lemma_no_catch_count(p, gs, gs.len() as int);
    }
    if exists|i: int| 0 <= i < gs.len() && cell_of(#[trigger] gs[i].x as int) == cell_of(p.x as int) && cell_of(gs[i].y as int) == cell_of(p.y as int) {
        let i = choose|i: int| 0 <= i < gs.len() && cell_of(#[trigger] gs[i].x as int) == cell_of(p.x as int) && cell_of(gs[i].y as int) == cell_of(p.y as int);
        lemma_catch_count_grows(p, gs, i + 1, gs.len() as int);
        lemma_catch_count_bounds(p, gs, i);
        assert(caught(p, gs[i]));
        assert(catch_count(p, gs, i + 1) >= 1);
    }
}

proof fn lemma_no_catch_count(p: Player, gs: Seq<Phantom>, n: int)
    requires
        0 <= n <= gs.len(),
        forall|i: int| 0 <= i < gs.len() ==> cell_of(#[trigger] gs[i].x as int) != cell_of(p.x as int) || cell_of(gs[i].y as int) != cell_of(p.y as int),
    ensures
        catch_count(p, gs, n) == 0,
    decreases n,
{
    if n > 0 {
        assert(cell_of(gs[n - 1].x as int) != cell_of(p.x as int) || cell_of(gs[n - 1].y as int) != cell_of(p.y as int));
        lemma_no_catch_count(p, gs, n - 1);
    }
}

/// Counting over more ghosts counts at least as many catches.
pub proof fn lemma_catch_count_grows(p: Player, gs: Seq<Phantom>, i: int, n: int)
    requires
        0 <= i <= n,
    ensures
        catch_count(p, gs, i) <= catch_count(p, gs, n),
    decreases n - i,
{
    if i < n {
        lemma_catch_count_grows(p, gs, i, n - 1);
    }
}

/// Settles who caught whom: every ghost on the player's square (as it was
/// when the check began) is sent home, and, unless a power pill is running,
/// costs the player a life and sends the player home.  Returns the sounds
/// to play, one per catch, in ghost order.
pub fn live_and_dir_logic(player: &mut Player, ghosts: &mut Vec<Phantom>) -> (sounds: Vec<usize>)
    requires
        old(player).super_pill == 0 ==> old(player).lives - catch_count(*old(player), old(ghosts)@, old(ghosts)@.len() as int) >= i32::MIN,
    ensures
        final(ghosts)@ == ghosts_after_catch(*old(player), old(ghosts)@),
        *final(player) == player_after_catch(*old(player), old(ghosts)@, old(ghosts)@.len() as int),
        sounds@ == catch_sounds(*old(player), old(ghosts)@, old(ghosts)@.len() as int),
{
    let ghost p0 = *player;
    let ghost gs0 = ghosts@;
    let player_cellx = player.x / SQUARE_SIZE as i32;
    let player_celly = player.y / SQUARE_SIZE as i32;
    let mut sounds: Vec<usize> = Vec::new();
    let n = ghosts.len();
    let mut i: usize = 0;
    while i < n
        invariant
            n == gs0.len(),
            ghosts@.len() == n,
            i <= n,
            player_cellx == cell_of(p0.x as int),
            player_celly == cell_of(p0.y as int),
            p0.super_pill == 0 ==> p0.lives - catch_count(p0, gs0, n as int) >= i32::MIN,
            forall|j: int| 0 <= j < i ==> ghosts@[j] == #[trigger] ghosts_after_catch(p0, gs0)[j],
            forall|j: int| i <= j < n ==> ghosts@[j] == gs0[j],
            *player == player_after_catch(p0, gs0, i as int),
            sounds@ == catch_sounds(p0, gs0, i as int),
        decreases n - i,
    {
        proof {
            lemma_catch_count_bounds(p0, gs0, i as int);
            lemma_catch_count_grows(p0, gs0, i as int + 1, n as int);
        }
        let cellx = ghosts[i].x / SQUARE_SIZE as i32;
        let celly = ghosts[i].y / SQUARE_SIZE as i32;
        if cellx == player_cellx && celly == player_celly {
            let mut g = ghosts[i];
            if player.super_pill == 0 {
                player.player_reset();
                player.lives = player.lives - 1;
                g.ghost_reset();
                ghosts.set(i, g);
                sounds.push(DEAD);
            } else {
                g.ghost_reset();
                ghosts.set(i, g);
                sounds.push(GOTGHOST);
            }
        }
        assert(catch_sounds(p0, gs0, i + 1) =~= if caught(p0, gs0[i as int]) {
            catch_sounds(p0, gs0, i as int).push(if p0.super_pill == 0 { DEAD } else { GOTGHOST })
        } else {
            catch_sounds(p0, gs0, i as int)
        });
        i = i + 1;
    }
    sounds
}


/// The target a ghost is given: the player, or, while a power pill runs,
/// the point mirrored through the middle of the maze.
pub open spec fn retarget(g: Phantom, p: Player) -> Phantom {
    if p.super_pill <= 0 {
        Phantom { target: (p.x, p.y), ..g }
    } else {
        Phantom { target: ((MAZE_WIDTH - p.x) as i32, (MAZE_HEIGHT - p.y) as i32), ..g }
    }
}

/// Every ghost retargeted and rendered for one frame, ghost `i` with draws `dice[i]`.
pub open spec fn ghosts_after_frame(p: Player, gs: Seq<Phantom>, m: Seq<Seq<char>>, dice: Seq<Dice>) -> Seq<Phantom> {
    Seq::new(gs.len(), |i: int| ghost_render(retarget(gs[i], p), m, dice[i]))
}

/// The ghost sprite (0 normal, 1 edible) and blink counter after a frame
/// with `n` ghosts: no power pill shows normal ghosts, a fresh one edible
/// ghosts, and in its last `BLINK_TIME` frames the sprite follows the
/// parity of the counter, which steps once per ghost on every sixtieth frame.
pub open spec fn ghost_sprite(p: Player, n: int, clicks: int, which: usize, flip: usize) -> (usize, usize) {
    if n <= 0 {
        (which, flip)
    } else if p.super_pill <= 0 {
        (0usize, flip)
    } else if p.super_pill < BLINK_TIME {
        let f = if clicks % 60 == 0 { flip + n } else { flip as int };
        ((f % 2) as usize, f as usize)
    } else {
        (1usize, flip)
    }
}

/// What one frame does to a ghost besides the details of its movement:
/// it stays inside a walled maze, keeps unit directions, counts the frame,
/// gains at most three smart seconds, gets its target, and keeps its start.
pub open spec fn ghost_moved(before: Phantom, after: Phantom, p: Player, m: Seq<Seq<char>>) -> bool {
    &&& after.clicks == before.clicks + 1
    &&& after.target == retarget(before, p).target
    &&& after.startx == before.startx && after.starty == before.starty
    &&& ghost_ready(retarget(before, p)) ==> {
        &&& walled(m) ==> ghost_in_bounds(after)
        &&& unit(after.x_dir) && unit(after.y_dir) && unit(after.inertia_x) && unit(after.inertia_y)
        &&& before.smart_seconds <= after.smart_seconds <= before.smart_seconds + 3
        &&& near(after.current_target.0 as int) && near(after.current_target.1 as int)
        &&& smart_paced(before) ==> smart_paced(after)
    }
}

/// The mirrored target point does not overflow.
pub open spec fn mirror_fits(p: Player, gs: Seq<Phantom>) -> bool {
    gs.len() > 0 && p.super_pill > 0 ==> MAZE_WIDTH - p.x <= i32::MAX && MAZE_HEIGHT - p.y <= i32::MAX
}

/// The blink counter does not overflow.
pub open spec fn blink_fits(p: Player, n: int, clicks: int, flip: usize) -> bool {
    0 < p.super_pill < BLINK_TIME && clicks % 60 == 0 ==> flip + n <= usize::MAX
}

/// Each ghost, once retargeted, can take its frame with its draws.
pub open spec fn ghosts_can_move(p: Player, gs: Seq<Phantom>, m: Seq<Seq<char>>, dice: Seq<Dice>) -> bool {
    &&& mirror_fits(p, gs)
    &&& forall|i: int| 0 <= i < gs.len() ==> ghost_frame_ok(#[trigger] retarget(gs[i], p), m, dice[i])
}

/// Each ghost, once retargeted, can take its frame whatever fair draws come.
pub open spec fn ghosts_can_always_move(p: Player, gs: Seq<Phantom>, m: Seq<Seq<char>>) -> bool {
    &&& mirror_fits(p, gs)
    &&& forall|i: int, d: Dice| 0 <= i < gs.len() && fair_dice(d) ==> #[trigger] ghost_frame_ok(retarget(gs[i], p), m, d)
}

/// One frame of the ghosts, with fresh random draws for each ghost.  See
/// `player_logic_with` for what happens.
pub fn player_logic(
    player: &mut Player,
    ghosts: &mut Vec<Phantom>,
    maze: &mut Vec<Vec<char>>,
    ghost_which_texture: usize,
    ghost_flip_counter: usize,
    clicks: &mut i32,
) -> (r: (usize, usize))
    requires
        ghosts_can_always_move(*old(player), old(ghosts)@, grid(old(maze))),
        well_shaped(grid(old(maze))),
        blink_fits(*old(player), old(ghosts)@.len() as int, *old(clicks) as int, ghost_flip_counter),
    ensures
        *final(player) == *old(player),
        *final(maze) == *old(maze),
        *final(clicks) == *old(clicks),
        exists|dice: Seq<Dice>| dice.len() == old(ghosts)@.len() && (forall|i: int| 0 <= i < dice.len() ==> fair_dice(#[trigger] dice[i]))
            && final(ghosts)@ == ghosts_after_frame(*old(player), old(ghosts)@, grid(old(maze)), dice),
        forall|i: int| 0 <= i < old(ghosts)@.len() ==> #[trigger] ghost_moved(old(ghosts)@[i], final(ghosts)@[i], *old(player), grid(old(maze))),
        r == ghost_sprite(*old(player), old(ghosts)@.len() as int, *old(clicks) as int, ghost_which_texture, ghost_flip_counter),
{
    let dice = roll_all_dice(ghosts.len());
    assert forall|i: int| 0 <= i < ghosts@.len() implies ghost_frame_ok(#[trigger] retarget(ghosts@[i], *player), grid(maze), dice@[i]) by {
        assert(fair_dice(dice@[i]));
    }
    player_logic_with(player, ghosts, maze, ghost_which_texture, ghost_flip_counter, clicks, &dice)
}

/// Fresh random draws for `n` ghosts.
pub fn roll_all_dice(n: usize) -> (dice: Vec<Dice>)
    ensures
        dice@.len() == n,
        forall|i: int| 0 <= i < n ==> fair_dice(#[trigger] dice@[i]),
{
    let mut dice: Vec<Dice> = Vec::new();
    let mut i: usize = 0;
    while i < n
        invariant
            i <= n,
            dice@.len() == i,
            forall|j: int| 0 <= j < i ==> fair_dice(#[trigger] dice@[j]),
        decreases n - i,
    {
        dice.push(roll_dice());
        i = i + 1;
    }
    dice
}

/// One frame of the ghosts with the draws `dice` (one per ghost): each ghost
/// is given its target (the player, or the mirrored point while a power pill
/// runs) and rendered; returns the ghost sprite and blink counter.
pub fn player_logic_with(
    player: &mut Player,
    ghosts: &mut Vec<Phantom>,
    maze: &mut Vec<Vec<char>>,
    ghost_which_texture: usize,
    ghost_flip_counter: usize,
    clicks: &mut i32,
    dice: &Vec<Dice>,
) -> (r: (usize, usize))
    requires
        ghosts_can_move(*old(player), old(ghosts)@, grid(old(maze)), dice@),
        well_shaped(grid(old(maze))),
        blink_fits(*old(player), old(ghosts)@.len() as int, *old(clicks) as int, ghost_flip_counter),
        dice@.len() == old(ghosts)@.len(),
        forall|i: int| 0 <= i < dice@.len() ==> fair_dice(#[trigger] dice@[i]),
    ensures
        *final(player) == *old(player),
        *final(maze) == *old(maze),
        *final(clicks) == *old(clicks),
        final(ghosts)@ == ghosts_after_frame(*old(player), old(ghosts)@, grid(old(maze)), dice@),
        forall|i: int| 0 <= i < old(ghosts)@.len() ==> #[trigger] ghost_moved(old(ghosts)@[i], final(ghosts)@[i], *old(player), grid(old(maze))),
        r == ghost_sprite(*old(player), old(ghosts)@.len() as int, *old(clicks) as int, ghost_which_texture, ghost_flip_counter),
{
    let ghost gs0 = ghosts@;
    let ghost m = grid(maze);
    let mut ghost_which_texture: usize = ghost_which_texture;
    let mut ghost_flip_counter: usize = ghost_flip_counter;
    let ghost which0 = ghost_which_texture;
    let ghost flip0 = ghost_flip_counter;
    let n = ghosts.len();
    let mut i: usize = 0;
    while i < n
        invariant
            n == gs0.len(),
            ghosts@.len() == n,
            dice@.len() == n,
            i <= n,
            m == grid(maze),
            well_shaped(m),
            ghosts_can_move(*player, gs0, m, dice@),
            blink_fits(*player, n as int, *clicks as int, flip0),
            forall|k: int| 0 <= k < dice@.len() ==> fair_dice(#[trigger] dice@[k]),
            forall|j: int| 0 <= j < i ==> ghosts@[j] == #[trigger] ghosts_after_frame(*player, gs0, m, dice@)[j],
            forall|j: int| i <= j < n ==> ghosts@[j] == gs0[j],
            forall|j: int| 0 <= j < i ==> #[trigger] ghost_moved(gs0[j], ghosts@[j], *player, m),
            (ghost_which_texture, ghost_flip_counter) == ghost_sprite(*player, i as int, *clicks as int, which0, flip0),
        decreases n - i,
    {
        let mut g = ghosts[i];
        if player.super_pill <= 0 {
            ghost_which_texture = 0;
            g.target.0 = player.x;
            g.target.1 = player.y;
        } else {
            g.target.0 = MAZE_WIDTH as i32 - player.x;
            g.target.1 = MAZE_HEIGHT as i32 - player.y;
        }
        assert(g == retarget(gs0[i as int], *player));
        assert(ghost_frame_ok(retarget(gs0[i as int], *player), m, dice@[i as int]));
        g.render_with(maze, &dice[i]);
        ghosts.set(i, g);
        if player.super_pill > 0 {
            if player.super_pill < BLINK_TIME {
                if *clicks % 60 == 0 {
                    ghost_flip_counter = ghost_flip_counter + 1;
                }
                ghost_which_texture = ghost_flip_counter % 2;
            } else {
                ghost_which_texture = 1;
            }
        }
        i = i + 1;
    }
    (ghost_which_texture, ghost_flip_counter)
}

} // verus!
