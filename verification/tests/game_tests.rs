use rustman::rustman::game::{start_title_y, copy_maze, Game, GameState, Key};
use rustman::rustman::ghost_maker::{Dice, Turn};
use rustman::rustman::maze_maker::{count_pills, read_in_maze, MAZE_X, MAZE_Y};
use rustman::rustman::sound::{after_pause_check, after_sample, playable_len, sample_at, Playing, CHOMP, DEAD};
use rustman::rustman::title::{paint_title, title_mask};
use rustman::rustman::maze_maker::Colour;

fn walled_text() -> Vec<Vec<char>> {
    let mut lines = Vec::new();
    for y in 0..MAZE_Y {
        let mut row = vec![' '; MAZE_X];
        if y == 0 || y == MAZE_Y - 1 {
            row = vec!['X'; MAZE_X];
        }
        row[0] = 'X';
        row[MAZE_X - 1] = 'X';
        lines.push(row);
    }
    lines
}

fn still_dice(n: usize) -> Vec<Dice> {
    let t = Turn { x: 0, y: 0 };
    vec![Dice { wander_tick: 5, wander_x: 0, wander_y: 0, settle: t, blocked_x: t, blocked_y: t }; n]
}

fn new_game() -> Game {
    Game::new(read_in_maze(&walled_text()))
}

#[test]
fn a_new_game_waits_on_the_title() {
    let g = new_game();
    assert_eq!(g.state, GameState::Start);
    assert_eq!(g.clicks, 0);
    assert_eq!(g.player.lives, 3);
    assert_eq!(g.ghosts.len(), 3);
    assert_eq!((g.ghosts[0].x, g.ghosts[1].x, g.ghosts[2].x), (380, 340, 430));
    assert_eq!(g.count_pills, count_pills(&g.maze));
}

#[test]
fn an_open_maze_starts_a_game_that_can_be_walked_off() {
    // no maze text: no walls, pills everywhere inside
    let mut g = Game::new(read_in_maze(&Vec::new()));
    assert_eq!(g.state, GameState::Start);
    assert_eq!(g.count_pills, count_pills(&g.maze));
    assert!(g.actors_are_inside());
    for _ in 0..301 {
        g.tick_with(false, &still_dice(3));
    }
    assert_eq!(g.state, GameState::Play);
    // the player starts at the left edge of the open ground and walks off it
    g.key_down(Key::Left);
    g.tick_with(false, &still_dice(3));
    assert_eq!(g.player.x, 21);
    assert!(!g.actors_are_inside());
}

#[test]
fn title_gives_way_to_play_after_three_hundred_frames() {
    let mut g = new_game();
    for _ in 0..300 {
        let f = g.tick(false);
        assert!(f.sounds.is_empty());
    }
    assert_eq!(g.state, GameState::Start);
    g.tick(false);
    assert_eq!(g.state, GameState::Play);
    assert_eq!(g.clicks, 301);
}

#[test]
fn title_scrolls_away() {
    assert_eq!(start_title_y(0), 100);
    assert_eq!(start_title_y(60), 100);
    assert_eq!(start_title_y(61), 99);
    assert_eq!(start_title_y(299), 100 - 299 + 60);
    assert_eq!(start_title_y(300), -300);
}

#[test]
fn keys_steer_and_freeze() {
    let mut g = new_game();
    g.key_down(Key::Left);
    assert_eq!(g.player.x_dir, -1);
    g.key_down(Key::Down);
    assert_eq!(g.player.y_dir, 1);
    g.key_down(Key::FreezeGhosts);
    assert!(g.ghosts.iter().all(|gh| gh.stop));
    g.key_down(Key::ReleaseGhosts);
    assert!(g.ghosts.iter().all(|gh| !gh.stop));
}

#[test]
fn eating_counts_down_the_pills() {
    let mut g = new_game();
    g.state = GameState::Play;
    g.clicks = 400;
    // the square under the player at the start
    g.maze[66][2] = '*';
    g.count_pills = count_pills(&g.maze) - count_pills(&g.fresh_maze) + g.count_pills;
    let before = g.count_pills;
    let f = g.tick_with(false, &still_dice(3));
    assert!(f.eaten);
    assert_eq!((f.eaten_x, f.eaten_y), (16, 528));
    assert_eq!(f.sounds, vec![CHOMP]);
    assert_eq!(g.count_pills, before - 1);
    assert_eq!(g.player.score, 1);
    assert_eq!(g.maze[66][2], ' ');
}

#[test]
fn clearing_the_maze_starts_a_new_level() {
    let mut g = new_game();
    g.state = GameState::Play;
    g.clicks = 400;
    g.maze[66][2] = '*';
    g.count_pills = 1;
    g.player.x = 30;
    g.player.y = 555;
    g.player.x_dir = -1;
    g.player.inertia_x = -1;
    g.ghosts[0].x = 300;
    let fresh_pills = count_pills(&g.fresh_maze);
    // moving left onto the square: it is under x = 29 once the step is taken
    g.maze[66][3] = '*';
    let f = g.tick_with(false, &still_dice(3));
    assert!(f.eaten);
    assert!(f.maze_reloaded);
    assert_eq!(g.count_pills, fresh_pills);
    assert_eq!((g.player.x, g.player.y), (22, 555));
    assert_eq!((g.ghosts[0].x, g.ghosts[0].y), (380, 288));
    assert_eq!(g.maze, copy_maze(&g.fresh_maze));
    assert_eq!(g.state, GameState::Play);
}

#[test]
fn the_last_life_ends_the_game_and_space_restarts_it() {
    let mut g = new_game();
    g.state = GameState::Play;
    g.clicks = 400;
    g.player.lives = 1;
    g.player.score = 12;
    g.ghosts[0].x = 22;
    g.ghosts[0].y = 555;
    g.ghosts[0].stop = true;
    let pill_underfoot = g.maze[66][2] == '*';
    let f = g.tick_with(false, &still_dice(3));
    assert_eq!(f.eaten, pill_underfoot);
    if pill_underfoot {
        assert_eq!(f.sounds, vec![CHOMP, DEAD]);
    } else {
        assert_eq!(f.sounds, vec![DEAD]);
    }
    assert_eq!(g.player.lives, 0);
    assert_eq!(g.state, GameState::End);
    // nothing happens without space
    let f = g.tick_with(false, &still_dice(3));
    assert!(!f.maze_reloaded);
    assert_eq!(g.state, GameState::End);
    assert_eq!(g.clicks, 402);
    let f = g.tick_with(true, &still_dice(3));
    assert!(f.maze_reloaded);
    assert_eq!(g.state, GameState::Play);
    assert_eq!((g.player.lives, g.player.score), (3, 0));
    assert_eq!((g.player.x, g.player.y), (22, 555));
}

#[test]
fn ghost_sprite_follows_the_power_pill() {
    let mut g = new_game();
    g.state = GameState::Play;
    g.clicks = 400;
    let f = g.tick_with(false, &still_dice(3));
    assert_eq!(f.ghost_texture, 0);
    g.player.super_pill = 500;
    let f = g.tick_with(false, &still_dice(3));
    assert_eq!(f.ghost_texture, 1);
    // in the blinking phase, with three ghosts, on a sixtieth frame
    g.player.super_pill = 50;
    g.clicks = 419;
    let f = g.tick_with(false, &still_dice(3));
    assert_eq!(f.ghost_texture, 1);
    let f = g.tick_with(false, &still_dice(3));
    assert_eq!(f.ghost_texture, 0);
}

#[test]
fn sound_lifecycle() {
    assert_eq!(after_sample(Playing::Playing, 3, 10), (Playing::Playing, 4));
    assert_eq!(after_sample(Playing::Playing, 9, 10), (Playing::Ended, 0));
    assert_eq!(after_sample(Playing::Ended, 9, 10), (Playing::Ended, 9));
    assert_eq!(after_sample(Playing::Finished, 2, 10), (Playing::Finished, 2));
    assert_eq!(after_pause_check(Playing::Ended), (Playing::Finished, true));
    assert_eq!(after_pause_check(Playing::Playing), (Playing::Playing, false));
    assert_eq!(after_pause_check(Playing::Finished), (Playing::Finished, false));
    assert_eq!(sample_at(&vec![1, 2, 3], 1), 2);
    assert_eq!(sample_at(&vec![1, 2, 3], 3), 128);
    assert_eq!(playable_len(3000, 2600), 400);
}

#[test]
fn title_mask_reads_alpha_below_the_top_rows() {
    // 2 pixels wide, 13 high, 8 bytes a row
    let mut pixels = vec![0u8; 8 * 13];
    pixels[11 * 8 + 4 + 3] = 200; // row 11, column 1
    pixels[12 * 8 + 3] = 1; // row 12, column 0
    pixels[10 * 8 + 3] = 255; // row 10 is cut off
    let mask = title_mask(&pixels, 2, 13, 8);
    assert_eq!(mask.len(), 26);
    assert_eq!(&mask[0..4], &[0, 1, 1, 0]);
    assert!(mask[4..].iter().all(|&b| b == 0));
}

#[test]
fn paint_title_draws_slanted_blocks() {
    // a 2 by 3 mask: pixel (0, 0) and (1, 1) lit; the last row is never drawn
    let mask = vec![1, 0, 0, 1, 1, 1];
    let pitch = 60;
    let mut buffer = vec![0u8; pitch * 12];
    paint_title(&mut buffer, pitch, &mask, 2, 3, Colour { r: 10, g: 20, b: 30 });
    // row 1 of the mask: no slant; pixel (1, 1) -> rows 4..6, columns 4..6
    assert_eq!(&buffer[4 * pitch + 12..4 * pitch + 15], &[10, 20, 30]);
    assert_eq!(&buffer[5 * pitch + 15..5 * pitch + 18], &[10, 20, 30]);
    assert_eq!(buffer[6 * pitch + 12], 0);
    assert_eq!(buffer[4 * pitch + 18], 0);
    // row 0: slant 2; pixel (0, 0) -> rows 0..2, columns 2..4
    assert_eq!(&buffer[6..9], &[10, 20, 30]);
    assert_eq!(&buffer[pitch + 9..pitch + 12], &[10, 20, 30]);
    assert_eq!(buffer[0], 0);
    assert_eq!(buffer[12], 0);
    // the last mask row stays dark
    assert!(buffer[8 * pitch..].iter().all(|&b| b == 0));
}

#[test]
fn paint_title_runs_blocks_on_past_the_row_end() {
    // a 2 by 2 mask with pixel (0, 1) lit: its block starts at column 4 of a
    // four-pixel row, so it runs on into the next rows
    let mask = vec![0, 1, 0, 0];
    let pitch = 12;
    let mut buffer = vec![0u8; 36];
    paint_title(&mut buffer, pitch, &mask, 2, 2, Colour { r: 10, g: 20, b: 30 });
    let mut expected = vec![0u8; 36];
    for start in [12, 15, 24, 27] {
        expected[start..start + 3].copy_from_slice(&[10, 20, 30]);
    }
    assert_eq!(buffer, expected);
}
