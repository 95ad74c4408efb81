use rustman::rustman::ghost_maker::{distance_squared, roll_dice, Dice, Phantom, Turn};
use rustman::rustman::maze_maker::{read_in_maze, MAZE_X, MAZE_Y};
use rustman::rustman::player_maker::{Player, EAT, RIGHT, SUPER_PILL_TIME, UP};
use rustman::rustman::sound::{DEAD, GOTGHOST};
use rustman::rustman::{live_and_dir_logic, player_logic, player_logic_with};

/// A maze with walls all round and nothing inside.
fn empty_walled_maze() -> Vec<Vec<char>> {
    let mut maze = vec![vec![' '; MAZE_X]; MAZE_Y];
    for y in 0..MAZE_Y {
        maze[y][0] = 'X';
        maze[y][MAZE_X - 1] = 'X';
    }
    maze[0] = vec!['X'; MAZE_X];
    maze[MAZE_Y - 1] = vec!['X'; MAZE_X];
    maze.push(Vec::new());
    maze
}

fn still_dice() -> Dice {
    let t = Turn { x: 0, y: 0 };
    Dice { wander_tick: 5, wander_x: 0, wander_y: 0, settle: t, blocked_x: t, blocked_y: t }
}

#[test]
fn player_starts_at_the_start() {
    let p = Player::new();
    assert_eq!((p.x, p.y, p.lives, p.score, p.super_pill, p.direction), (22, 555, 3, 0, 0, 0));
}

#[test]
fn player_reset_keeps_lives_and_score() {
    let mut p = Player::new();
    p.x = 100;
    p.y = 200;
    p.x_dir = 1;
    p.inertia_y = -1;
    p.lives = 2;
    p.score = 7;
    p.player_reset();
    assert_eq!((p.x, p.y, p.x_dir, p.y_dir, p.inertia_x, p.inertia_y), (22, 555, 0, 0, 0, 0));
    assert_eq!((p.lives, p.score), (2, 7));
}

#[test]
fn player_moves_one_pixel_and_eats() {
    let mut maze = empty_walled_maze();
    let mut p = Player::new();
    p.x_dir = 1;
    // the square under the player after the step: row (555 - 24) / 8, column 23 / 8
    maze[66][2] = '*';
    let r = p.render(&mut maze);
    assert_eq!(r, (true, 16, 528));
    assert_eq!((p.x, p.y, p.x_dir, p.inertia_x), (23, 555, 0, 1));
    assert_eq!(maze[66][2], ' ');
    assert_eq!(p.score, 1);
    assert_eq!(p.direction, EAT);
    assert_eq!(p.old_direction, RIGHT);
    assert_eq!(p.change_direction_back, 9);
    // next frame: keeps going, nothing to eat
    let r = p.render(&mut maze);
    assert_eq!(r, (false, 0, 0));
    assert_eq!(p.x, 24);
    assert_eq!(p.change_direction_back, 8);
}

#[test]
fn power_pill_starts_the_timer() {
    let mut maze = empty_walled_maze();
    let mut p = Player::new();
    maze[66][2] = 'P';
    let r = p.render(&mut maze);
    assert_eq!(r, (true, 16, 528));
    assert_eq!(p.super_pill, SUPER_PILL_TIME);
    p.render(&mut maze);
    assert_eq!(p.super_pill, SUPER_PILL_TIME - 1);
}

#[test]
fn walls_stop_the_player() {
    let mut maze = empty_walled_maze();
    let mut p = Player::new();
    p.x_dir = -1;
    // the wall in column 0 is two pixels away from x = 20
    let r = p.render(&mut maze);
    assert_eq!(r, (false, 0, 0));
    assert_eq!(p.x, 22);
    assert_eq!(p.inertia_x, 0);
    // A gate in row 60 stops the climb: y = 522 is the first
    // position whose probes reach that row, so the player halts at 524.
    p.y_dir = -1;
    for col in 0..MAZE_X {
        maze[60][col] = '!';
    }
    for _ in 0..20 {
        p.render(&mut maze);
    }
    assert_eq!(p.y, 535);
    assert_eq!(p.direction, UP);
    for _ in 0..20 {
        p.render(&mut maze);
    }
    assert_eq!(p.y, 524);
    assert_eq!(p.inertia_y, 0);
}

#[test]
fn eat_sprite_returns_after_ten_frames() {
    let mut maze = empty_walled_maze();
    let mut p = Player::new();
    p.direction = RIGHT;
    maze[66][2] = '*';
    p.render(&mut maze);
    assert_eq!(p.direction, EAT);
    for _ in 0..9 {
        p.render(&mut maze);
    }
    assert_eq!(p.direction, RIGHT);
    assert_eq!(p.change_direction_back, 0);
}

#[test]
fn ghost_new_and_reset() {
    let mut g = Phantom::new(0, -1, 380, 288, 0, 576);
    assert_eq!((g.x, g.y, g.x_dir, g.y_dir, g.target, g.current_target), (380, 288, 0, -1, (380, 288), (0, 576)));
    assert_eq!((g.startx, g.starty, g.clicks, g.stop, g.out_of_home), (380, 288, 0, false, false));
    g.x = 100;
    g.y = 100;
    g.x_dir = 1;
    g.inertia_x = 1;
    g.inertia_y = 0;
    g.ghost_reset();
    assert_eq!((g.x, g.y, g.x_dir, g.y_dir, g.inertia_x, g.inertia_y), (380, 288, 0, -1, 0, -1));
}

#[test]
fn ghost_climbs_towards_its_way() {
    let maze = empty_walled_maze();
    let mut g = Phantom::new(0, -1, 380, 288, 0, 576);
    g.render_with(&maze, &still_dice());
    assert_eq!(g.clicks, 1);
    assert_eq!((g.x, g.y), (380, 287));
    assert_eq!((g.inertia_y, g.y_dir), (-1, 0));
}

#[test]
fn stopped_ghost_stays_put() {
    let maze = empty_walled_maze();
    let mut g = Phantom::new(0, -1, 380, 288, 0, 576);
    g.stop = true;
    g.render_with(&maze, &still_dice());
    assert_eq!((g.x, g.y), (380, 288));
    assert_eq!(g.inertia_y, -1);
}

#[test]
fn ghost_turns_at_a_wall() {
    let maze = empty_walled_maze();
    // just below the top wall, heading up: blocked, turns left or right
    // still asking to go up: it asks for the other way
    let mut g = Phantom::new(0, -1, 380, 43, 700, 43);
    g.inertia_y = -1;
    g.render_with(&maze, &still_dice());
    assert_eq!(g.y, 43);
    assert_eq!(g.inertia_y, 0);
    assert_eq!((g.x_dir, g.y_dir), (0, 1));
    // only drifting up: it turns towards its target, on the right
    let mut g = Phantom::new(0, 0, 380, 43, 700, 43);
    g.inertia_y = -1;
    g.render_with(&maze, &still_dice());
    assert_eq!(g.y, 43);
    assert_eq!((g.x_dir, g.y_dir, g.inertia_y), (1, 0, 0));
}

#[test]
fn ghost_sees_the_player_down_a_corridor() {
    let maze = empty_walled_maze();
    let mut g = Phantom::new(1, 0, 401, 301, 50, 50);
    g.smart_seconds = 9;
    g.target = (600, 301 + 16 - 16);
    g.render_with(&maze, &still_dice());
    // it turned to chase the player and retargeted
    assert_eq!(g.current_target, (600, 301));
    assert_eq!(g.inertia_x, 1);
    assert_eq!(g.x, 402);
}

#[test]
fn ghost_reaching_its_target_leaves_home() {
    let maze = empty_walled_maze();
    let mut g = Phantom::new(0, -1, 380, 288, 383, 290);
    g.target = (100, 100);
    g.render_with(&maze, &still_dice());
    assert!(g.out_of_home);
    assert_eq!(g.current_target, (100, 100));
}

#[test]
fn ghost_wanders_on_its_tick() {
    let maze = empty_walled_maze();
    let mut g = Phantom::new(0, -1, 380, 288, 0, 576);
    g.out_of_home = true;
    g.clicks = 4;
    g.stop = true;
    let mut d = still_dice();
    d.wander_tick = 5;
    d.wander_x = -1;
    d.wander_y = 0;
    g.render_with(&maze, &d);
    assert_eq!(g.current_target, (396, 288));
    assert_eq!(g.smart_seconds, 1);
}

#[test]
fn random_turns_stay_in_range() {
    let mut maze = empty_walled_maze();
    for _ in 0..50 {
        let mut g = Phantom::new(0, 0, 380, 288, 0, 576);
        g.change_direction(&mut maze);
        assert!(g.x_dir == -1 || g.x_dir == 0);
        assert!(g.y_dir == -1 || g.y_dir == 0);
        let d = roll_dice();
        assert!(1 <= d.wander_tick && d.wander_tick < 10);
        assert!(d.settle.x == -1 || d.settle.x == 0);
    }
}

#[test]
fn distance_is_exact() {
    assert_eq!(distance_squared(0, 0, 3, 4), 25);
    assert_eq!(distance_squared(-1, 5, 2, 1), 25);
    assert_eq!(distance_squared(i32::MIN, 0, i32::MAX, 0), (u32::MAX as i128) * (u32::MAX as i128));
}

#[test]
fn caught_without_power_pill_costs_a_life() {
    let mut p = Player::new();
    p.x = 100;
    p.y = 100;
    let mut ghosts = vec![
        Phantom::new(0, -1, 103, 101, 0, 0),
        Phantom::new(0, -1, 300, 300, 0, 0),
    ];
    ghosts[0].x_dir = 1;
    let sounds = live_and_dir_logic(&mut p, &mut ghosts);
    assert_eq!(sounds, vec![DEAD]);
    assert_eq!((p.x, p.y, p.lives), (22, 555, 2));
    assert_eq!((ghosts[0].x, ghosts[0].y, ghosts[0].x_dir, ghosts[0].y_dir), (103, 101, 0, -1));
    assert_eq!((ghosts[1].x, ghosts[1].y), (300, 300));
}

#[test]
fn caught_with_power_pill_eats_the_ghost() {
    let mut p = Player::new();
    p.x = 100;
    p.y = 100;
    p.super_pill = 5;
    let mut ghosts = vec![Phantom::new(0, -1, 200, 200, 0, 0), Phantom::new(0, -1, 200, 200, 0, 0)];
    ghosts[0].x = 100;
    ghosts[0].y = 100;
    ghosts[1].x = 96;
    ghosts[1].y = 96;
    let sounds = live_and_dir_logic(&mut p, &mut ghosts);
    assert_eq!(sounds, vec![GOTGHOST, GOTGHOST]);
    assert_eq!((p.x, p.y, p.lives), (100, 100, 3));
    assert_eq!((ghosts[0].x, ghosts[0].y), (200, 200));
    assert_eq!((ghosts[1].x, ghosts[1].y), (200, 200));
}

#[test]
fn two_ghosts_cost_two_lives() {
    let mut p = Player::new();
    p.x = 100;
    p.y = 100;
    let mut ghosts = vec![Phantom::new(0, -1, 100, 100, 0, 0), Phantom::new(0, -1, 101, 102, 0, 0)];
    let sounds = live_and_dir_logic(&mut p, &mut ghosts);
    assert_eq!(sounds, vec![DEAD, DEAD]);
    assert_eq!(p.lives, 1);
}

#[test]
fn ghosts_chase_or_flee() {
    let mut maze = empty_walled_maze();
    let mut p = Player::new();
    let mut ghosts = vec![Phantom::new(0, -1, 380, 288, 0, 576)];
    let mut clicks = 120;
    let dice = vec![still_dice()];
    let r = player_logic_with(&mut p, &mut ghosts, &mut maze, 1, 0, &mut clicks, &dice);
    assert_eq!(r, (0, 0));
    assert_eq!(ghosts[0].target, (22, 555));
    p.super_pill = 500;
    let r = player_logic_with(&mut p, &mut ghosts, &mut maze, 0, 0, &mut clicks, &dice);
    assert_eq!(r, (1, 0));
    assert_eq!(ghosts[0].target, (800 - 22, 576 - 555));
    // the last frames of a power pill blink on every sixtieth frame
    p.super_pill = 50;
    let mut two = vec![ghosts[0], ghosts[0]];
    let dice2 = vec![still_dice(), still_dice()];
    let r = player_logic_with(&mut p, &mut two, &mut maze, 0, 3, &mut clicks, &dice2);
    assert_eq!(r, (1, 5));
    let mut odd = 121;
    let r = player_logic_with(&mut p, &mut two, &mut maze, 0, 3, &mut odd, &dice2);
    assert_eq!(r, (1, 3));
    assert_eq!(clicks, 120);
    // with fresh draws
    let r = player_logic(&mut p, &mut two, &mut maze, 0, 0, &mut clicks);
    assert_eq!(r, (0, 2));
}

#[test]
fn a_pill_is_eaten_only_once() {
    let mut maze = empty_walled_maze();
    let mut p = Player::new();
    maze[66][2] = '*';
    // standing still over the pill: eaten now, nothing left the next frame
    assert_eq!(p.render(&mut maze), (true, 16, 528));
    let before = maze.clone();
    assert_eq!(p.render(&mut maze), (false, 0, 0));
    assert_eq!(maze, before);
    assert_eq!(p.score, 1);
}

#[test]
fn reset_after_many_frames_returns_to_the_start() {
    let maze = empty_walled_maze();
    let mut g = Phantom::new(0, -1, 380, 288, 0, 576);
    for _ in 0..500 {
        g.render_with(&maze, &still_dice());
    }
    assert_ne!((g.x, g.y), (380, 288));
    g.ghost_reset();
    assert_eq!((g.x, g.y, g.x_dir, g.y_dir, g.inertia_x, g.inertia_y), (380, 288, 0, -1, 0, -1));
    assert_eq!((g.startx, g.starty, g.clicks), (380, 288, 500));
}

#[test]
fn smart_seconds_keep_pace_with_the_frames() {
    let maze = empty_walled_maze();
    let mut g = Phantom::new(0, -1, 380, 288, 0, 576);
    // a wander on every frame the clock allows: the fastest smart seconds can come
    let mut d = still_dice();
    for c in 1..=20_000i64 {
        d.wander_tick = if c % 1800 >= 1 && c % 1800 <= 9 { (c % 1800) as i32 } else { 1 };
        g.render_with(&maze, &d);
        let s = g.smart_seconds as i64;
        let chances = c / 60 + 9 * (c / 1800) + (c % 1800).min(9);
        assert!(s - s / 20 <= chances, "frame {}: {} smart seconds", c, s);
    }
    assert_eq!(g.clicks, 20_000);
    assert!(g.smart_seconds > 0);
}
