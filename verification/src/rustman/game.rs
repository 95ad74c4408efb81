use vstd::prelude::*;

use crate::rustman::ghost_maker::{fair_dice, ghost_at_start, ghost_frame_ok, ghost_in_bounds, ghost_ready, lemma_ghost_ready_frame_ok, lemma_smart_paced_bound, near, smart_paced, Dice, Phantom};
use crate::rustman::maze_maker::{count_pills, MAZE_X, count_squares, grid, lemma_count_in_grid_bounds, walled, well_shaped, MAZE_Y};
use crate::rustman::player_maker::{player_at_start, player_in_bounds, player_move_ok, player_render, unit, Player, SUPER_PILL_TIME};
use crate::rustman::sound::CHOMP;
use crate::rustman::{
    catch_sounds, ghost_moved, ghost_sprite, ghosts_after_catch, ghosts_after_frame, lemma_catch_count_bounds,
    live_and_dir_logic, player_after_catch, player_logic_with, retarget, roll_all_dice, catch_count,
};

verus! {

/// Frames the title screen is shown before play starts.
pub const TITLE_FRAMES: i32 = 300;

/// Frames the title stays still before it scrolls away.
pub const TITLE_PAUSE: i32 = 60;

/// Lives at the start of a game.
pub const LIVES: i32 = 3;

/// The screens of the game.
#[derive(Clone, Copy, Debug, PartialEq, Eq, Structural)]
pub enum GameState {
    Start,
    Play,
    End,
}

/// The keys the game reacts to.
#[derive(Clone, Copy, Debug, PartialEq, Eq, Structural)]
pub enum Key {
    Left,
    Right,
    Up,
    Down,
    FreezeGhosts,
    ReleaseGhosts,
}

/// Everything the game keeps from one frame to the next.  `fresh_maze` is the
/// maze as built at the start, to which each new level returns.
pub struct Game {
    pub player: Player,
    pub ghosts: Vec<Phantom>,
    pub maze: Vec<Vec<char>>,
    pub fresh_maze: Vec<Vec<char>>,
    pub count_pills: i32,
    pub state: GameState,
    pub clicks: i32,
}

/// What a frame leaves for the screen and the speakers: the square emptied
/// by the player (if any), the sounds to play in order, the ghost sprite,
/// and whether the maze was rebuilt.
pub struct Frame {
    pub eaten: bool,
    pub eaten_x: i32,
    pub eaten_y: i32,
    pub sounds: Vec<usize>,
    pub ghost_texture: usize,
    pub maze_reloaded: bool,
}

/// The game as values.
pub struct GameView {
    pub player: Player,
    pub ghosts: Seq<Phantom>,
    pub maze: Seq<Seq<char>>,
    pub fresh_maze: Seq<Seq<char>>,
    pub count_pills: i32,
    pub state: GameState,
    pub clicks: i32,
}

/// A frame's output as values.
pub struct FrameView {
    pub eaten: bool,
    pub eaten_x: i32,
    pub eaten_y: i32,
    pub sounds: Seq<usize>,
    pub ghost_texture: usize,
    pub maze_reloaded: bool,
}

impl View for Game {
    type V = GameView;

    open spec fn view(&self) -> GameView {
        GameView {
            player: self.player,
            ghosts: self.ghosts@,
            maze: grid(&self.maze),
            fresh_maze: grid(&self.fresh_maze),
            count_pills: self.count_pills,
            state: self.state,
            clicks: self.clicks,
        }
    }
}

impl View for Frame {
    type V = FrameView;

    open spec fn view(&self) -> FrameView {
        FrameView {
            eaten: self.eaten,
            eaten_x: self.eaten_x,
            eaten_y: self.eaten_y,
            sounds: self.sounds@,
            ghost_texture: self.ghost_texture,
            maze_reloaded: self.maze_reloaded,
        }
    }
}

/// A frame in which nothing is eaten, heard or rebuilt.
pub open spec fn quiet_frame() -> FrameView {
    FrameView { eaten: false, eaten_x: 0, eaten_y: 0, sounds: Seq::empty(), ghost_texture: 0, maze_reloaded: false }
}

/// The pills left: the pills and power pills still in the maze, less the
/// power pills already eaten (eating either kind takes one off the count).
pub open spec fn pills_left(v: GameView) -> int {
    count_squares(v.maze, '*') + count_squares(v.maze, 'P') - count_squares(v.fresh_maze, 'P')
}

/// A new level: the player and the ghosts back at their starts, the maze
/// rebuilt, and the pill count set from it.
pub open spec fn restart_level(v: GameView) -> GameView {
    GameView {
        player: player_at_start(v.player),
        ghosts: v.ghosts.map_values(|g: Phantom| ghost_at_start(g)),
        maze: v.fresh_maze,
        count_pills: count_squares(v.fresh_maze, '*') as i32,
        ..v
    }
}

/// One frame of play, with the ghosts' draws `dice`: the ghosts move (their
/// sprite chosen with a blink counter starting from zero), the player moves
/// and eats, catches are settled, a cleared maze starts a new level, and a
/// player out of lives ends the game.
pub open spec fn play_frame(v: GameView, dice: Seq<Dice>) -> (GameView, FrameView) {
    let p0 = v.player;
    let gs1 = ghosts_after_frame(p0, v.ghosts, v.maze, dice);
    let sprite = ghost_sprite(p0, v.ghosts.len() as int, v.clicks as int, 0, 0).0;
    let moved = player_render(p0, v.maze);
    let p1 = moved.0;
    let eaten = moved.2.0;
    let count1 = if eaten { v.count_pills - 1 } else { v.count_pills as int };
    let n = gs1.len() as int;
    let v2 = GameView {
        player: player_after_catch(p1, gs1, n),
        ghosts: ghosts_after_catch(p1, gs1),
        maze: moved.1,
        count_pills: count1 as i32,
        ..v
    };
    let sounds = (if eaten { seq![CHOMP] } else { Seq::<usize>::empty() }) + catch_sounds(p1, gs1, n);
    let reloaded = count1 <= 0;
    let v3 = if reloaded { restart_level(v2) } else { v2 };
    (
        GameView { state: if v3.player.lives <= 0 { GameState::End } else { GameState::Play }, ..v3 },
        FrameView {
            eaten,
            eaten_x: moved.2.1,
            eaten_y: moved.2.2,
            sounds,
            ghost_texture: sprite,
            maze_reloaded: reloaded,
        },
    )
}

/// One frame of the game: the frame counter ticks; the title screen gives
/// way to play after `TITLE_FRAMES` frames; play runs `play_frame`; on the
/// end screen, space starts a new game with full lives and no score.
pub open spec fn game_step(v: GameView, space_pressed: bool, dice: Seq<Dice>) -> (GameView, FrameView) {
    let v1 = GameView { clicks: (v.clicks + 1) as i32, ..v };
    match v.state {
        GameState::Start => (
            GameView { state: if v1.clicks > TITLE_FRAMES { GameState::Play } else { GameState::Start }, ..v1 },
            quiet_frame(),
        ),
        GameState::Play => play_frame(v1, dice),
        GameState::End => if space_pressed {
            (
                restart_level(
                    GameView { player: Player { lives: LIVES, score: 0, ..v1.player }, state: GameState::Play, ..v1 },
                ),
                FrameView { maze_reloaded: true, ..quiet_frame() },
            )
        } else {
            (v1, quiet_frame())
        },
    }
}

/// A ghost fit to play on: unit directions, counters in step with the
/// game's, a start inside the maze and its targets near it.
pub open spec fn ghost_fit(g: Phantom, clicks: int) -> bool {
    &&& ghost_in_bounds(ghost_at_start(g))
    &&& unit(g.x_dir) && unit(g.y_dir) && unit(g.inertia_x) && unit(g.inertia_y)
    &&& 0 <= g.clicks <= clicks
    &&& smart_paced(g)
    &&& -1000 <= g.target.0 <= 1000 && -1000 <= g.target.1 <= 1000
    &&& near(g.current_target.0 as int) && near(g.current_target.1 as int)
}

/// What holds of the game between frames.
pub open spec fn game_ok(v: GameView) -> bool {
    &&& well_shaped(v.fresh_maze)
    &&& well_shaped(v.maze)
    &&& unit(v.player.x_dir) && unit(v.player.y_dir) && unit(v.player.inertia_x) && unit(v.player.inertia_y)
    &&& 0 <= v.player.super_pill <= SUPER_PILL_TIME
    &&& 0 <= v.clicks
    &&& 0 <= v.player.score <= v.clicks
    &&& v.ghosts.len() <= 64
    &&& 1 - v.ghosts.len() <= v.player.lives <= LIVES
    &&& v.state != GameState::End ==> v.player.lives >= 1
    &&& forall|i: int| 0 <= i < v.ghosts.len() ==> ghost_fit(#[trigger] v.ghosts[i], v.clicks as int)
    &&& v.count_pills == pills_left(v)
}

/// The player and every ghost are where a frame can move them without
/// looking outside the maze, whatever the maze holds.
pub open spec fn actors_inside(v: GameView) -> bool {
    &&& player_in_bounds(v.player)
    &&& forall|i: int| 0 <= i < v.ghosts.len() ==> ghost_in_bounds(#[trigger] v.ghosts[i])
}

/// Both the maze in play and the maze each level starts from are closed by
/// walls all round, which keeps the player and the ghosts inside.
pub open spec fn walled_game(v: GameView) -> bool {
    walled(v.maze) && walled(v.fresh_maze)
}

/// The game's frame counter can count one more frame.
pub open spec fn frames_left(v: GameView) -> bool {
    v.clicks < i32::MAX
}

/// Where the title banner stands `clicks` frames into the title screen:
/// still for a while, then scrolling up a pixel a frame, then gone.
pub open spec fn title_y(clicks: int) -> int {
    if clicks > TITLE_PAUSE {
        if clicks < TITLE_FRAMES { 100 - clicks + TITLE_PAUSE } else { -300 }
    } else {
        100
    }
}

/// The vertical position of the title banner on the title screen.
pub fn start_title_y(clicks: i32) -> (y: i32)
    ensures
        y == title_y(clicks as int),
{
    let mut title_y: i32 = 100;
    let pause: i32 = TITLE_PAUSE;
    if clicks > pause {
        if clicks < TITLE_FRAMES {
            title_y = title_y - clicks + pause;
        } else {
            title_y = -300;
        }
    }
    title_y
}

/// A copy of the maze.
pub fn copy_maze(maze: &Vec<Vec<char>>) -> (c: Vec<Vec<char>>)
    ensures
        grid(&c) == grid(maze),
{
    let mut c: Vec<Vec<char>> = Vec::new();
    let mut i: usize = 0;
    while i < maze.len()
        invariant
            i <= maze@.len(),
            c@.len() == i,
            forall|j: int| 0 <= j < i ==> #[trigger] c@[j]@ == maze@[j]@,
        decreases maze@.len() - i,
    {
        let row = maze[i].clone();
        c.push(row);
        i = i + 1;
    }
    assert(grid(&c) =~= grid(maze));
    c
}


/// The game as it starts: the player and three ghosts at their starts, the
/// maze fresh, the title screen up.
pub open spec fn initial_view(m: Seq<Seq<char>>) -> GameView {
    GameView {
        player: Player {
            lives: LIVES, x: 22, y: 555, x_dir: 0, y_dir: 0, score: 0, inertia_x: 0, inertia_y: 0,
            direction: 0, old_direction: 0, super_pill: 0, change_direction_back: 0,
        },
        ghosts: seq![
            Phantom::new_spec(0, -1i32, 380, 288, 0, 576),
            Phantom::new_spec(0, -1i32, 340, 288, 800, 576),
            Phantom::new_spec(0, -1i32, 430, 288, 800, 192),
        ],
        maze: m,
        fresh_maze: m,
        count_pills: count_squares(m, '*') as i32,
        state: GameState::Start,
        clicks: 0,
    }
}

impl Game {
    /// A new game on the maze `maze`, with the title screen up: the player
    /// and three ghosts at their starts, the pills counted.  They start inside
    /// the maze; a maze closed by walls all round keeps them there (see `tick`).
    pub fn new(maze: Vec<Vec<char>>) -> (game: Game)
        requires
            well_shaped(grid(&maze)),
        ensures
            game@ == initial_view(grid(&maze)),
            game_ok(game@),
            actors_inside(game@),
    {
        let count = count_pills(&maze);
        let fresh = copy_maze(&maze);
        let ghosts = vec![
            Phantom::new(0, -1, 380, 288, 0, 576),
            Phantom::new(0, -1, 340, 288, 800, 576),
            Phantom::new(0, -1, 430, 288, 800, 192),
        ];
        let game = Game {
            player: Player::new(),
            ghosts,
            maze,
            fresh_maze: fresh,
            count_pills: count,
            state: GameState::Start,
            clicks: 0,
        };
        assert(game@.ghosts =~= initial_view(grid(&game.maze)).ghosts);
        game
    }

    /// Are the player and every ghost where a frame can move them without
    /// looking outside the maze?
    pub fn actors_are_inside(&self) -> (r: bool)
        ensures
            r == actors_inside(self@),
    {
        if !(22 <= self.player.x && self.player.x <= 782 && 44 <= self.player.y && self.player.y <= 579) {
            return false;
        }
        let n = self.ghosts.len();
        let mut i: usize = 0;
        while i < n
            invariant
                n == self@.ghosts.len(),
                i <= n,
                forall|j: int| 0 <= j < i ==> ghost_in_bounds(#[trigger] self@.ghosts[j]),
            decreases n - i,
        {
            let g = self.ghosts[i];
            if !(22 <= g.x && g.x <= 783 && 43 <= g.y && g.y <= 580) {
                return false;
            }
            i = i + 1;
        }
        true
    }

    /// A key press: arrows ask the player to turn, and two keys freeze and
    /// release the ghosts.
    pub fn key_down(&mut self, key: Key)
        requires
            game_ok(old(self)@),
        ensures
            game_ok(final(self)@),
            final(self)@ == key_effect(old(self)@, key),
    {
        match key {
            Key::Left => {
                self.player.x_dir = -1;
            },
            Key::Right => {
                self.player.x_dir = 1;
            },
            Key::Up => {
                self.player.y_dir = -1;
            },
            Key::Down => {
                self.player.y_dir = 1;
            },
            Key::FreezeGhosts => {
                self.set_ghosts_stopped(true);
            },
            Key::ReleaseGhosts => {
                self.set_ghosts_stopped(false);
            },
        }
    }

    fn set_ghosts_stopped(&mut self, stop: bool)
        requires
            game_ok(old(self)@),
        ensures
            final(self)@ == (GameView { ghosts: old(self)@.ghosts.map_values(|g: Phantom| Phantom { stop, ..g }), ..old(self)@ }),
            game_ok(final(self)@),
    {
        let ghost v0 = self@;
        let n = self.ghosts.len();
        let mut i: usize = 0;
        while i < n
            invariant
                n == v0.ghosts.len(),
                i <= n,
                self@ == (GameView { ghosts: self@.ghosts, ..v0 }),
                self.ghosts@.len() == n,
                forall|j: int| 0 <= j < i ==> self.ghosts@[j] == (Phantom { stop, ..v0.ghosts[j] }),
                forall|j: int| i <= j < n ==> self.ghosts@[j] == v0.ghosts[j],
            decreases n - i,
        {
            let mut g = self.ghosts[i];
            g.stop = stop;
            self.ghosts.set(i, g);
            i = i + 1;
        }
        assert(self@.ghosts =~= v0.ghosts.map_values(|g: Phantom| Phantom { stop, ..g }));
        assert forall|i: int| 0 <= i < self@.ghosts.len() implies ghost_fit(#[trigger] self@.ghosts[i], self@.clicks as int) by {
            assert(ghost_fit(v0.ghosts[i], v0.clicks as int));
        }
    }
}

impl Game {
    /// Starts a new level: player and ghosts back at their starts, the maze
    /// rebuilt and its pills counted.
    fn new_level(&mut self)
        requires
            well_shaped(old(self)@.fresh_maze),
            forall|i: int| 0 <= i < old(self)@.ghosts.len() ==> ghost_in_bounds(#[trigger] ghost_at_start(old(self)@.ghosts[i])),
        ensures
            final(self)@ == restart_level(old(self)@),
    {
        let ghost v0 = self@;
        self.player.player_reset();
        let n = self.ghosts.len();
        let mut i: usize = 0;
        while i < n
            invariant
                n == v0.ghosts.len(),
                i <= n,
                self@ == (GameView { player: player_at_start(v0.player), ghosts: self@.ghosts, ..v0 }),
                self.ghosts@.len() == n,
                forall|j: int| 0 <= j < i ==> self.ghosts@[j] == ghost_at_start(v0.ghosts[j]),
                forall|j: int| i <= j < n ==> self.ghosts@[j] == v0.ghosts[j],
            decreases n - i,
        {
            let mut g = self.ghosts[i];
            g.ghost_reset();
            self.ghosts.set(i, g);
            i = i + 1;
        }
        assert(self@.ghosts =~= v0.ghosts.map_values(|g: Phantom| ghost_at_start(g)));
        self.maze = copy_maze(&self.fresh_maze);
        self.count_pills = count_pills(&self.fresh_maze);
    }

    /// One frame of play with the ghosts' draws `dice`; see `play_frame`.
    #[verifier::rlimit(60)]
    fn play(&mut self, dice: &Vec<Dice>) -> (frame: Frame)
        requires
            game_ok(old(self)@),
            old(self)@.clicks >= 1,
            old(self)@.player.score < old(self)@.clicks,
            forall|i: int| 0 <= i < old(self)@.ghosts.len() ==> #[trigger] old(self)@.ghosts[i].clicks < old(self)@.clicks,
            old(self)@.state == GameState::Play,
            actors_inside(old(self)@),
            dice@.len() == old(self)@.ghosts.len(),
            forall|i: int| 0 <= i < dice@.len() ==> fair_dice(#[trigger] dice@[i]),
        ensures
            (final(self)@, frame@) == play_frame(old(self)@, dice@),
            game_ok(final(self)@),
            walled_game(old(self)@) ==> walled_game(final(self)@) && actors_inside(final(self)@),
    {
        let ghost v0 = self@;
        let mut clicks = self.clicks;
        proof {
            assert forall|i: int| 0 <= i < v0.ghosts.len() implies
                ghost_frame_ok(#[trigger] retarget(v0.ghosts[i], v0.player), v0.maze, dice@[i]) by {
                assert(ghost_fit(v0.ghosts[i], v0.clicks as int));
                assert(ghost_in_bounds(v0.ghosts[i]));
                lemma_smart_paced_bound(v0.ghosts[i]);
                assert(ghost_ready(retarget(v0.ghosts[i], v0.player)));
                lemma_ghost_ready_frame_ok(retarget(v0.ghosts[i], v0.player), v0.maze, dice@[i]);
            }
        }
        let (sprite, _) = player_logic_with(&mut self.player, &mut self.ghosts, &mut self.maze, 0, 0, &mut clicks, dice);
        let ghost gs1 = self.ghosts@;
        let (eaten, x, y) = self.player.render(&mut self.maze);
        let ghost p1 = self.player;
        let ghost m1 = grid(&self.maze);
        proof {
            lemma_count_in_grid_bounds(v0.maze, MAZE_Y as int, '*');
            lemma_count_in_grid_bounds(v0.maze, MAZE_Y as int, 'P');
            lemma_count_in_grid_bounds(v0.fresh_maze, MAZE_Y as int, 'P');
        }
        if eaten {
            self.count_pills = self.count_pills - 1;
        }
        let mut sounds: Vec<usize> = Vec::new();
        if eaten {
            sounds.push(CHOMP);
        }
        proof {
            lemma_catch_count_bounds(p1, gs1, gs1.len() as int);
        }
        let mut caught = live_and_dir_logic(&mut self.player, &mut self.ghosts);
        sounds.append(&mut caught);
        let ghost v2 = self@;
        proof {
            assert(sounds@ =~= (if eaten { seq![CHOMP] } else { Seq::<usize>::empty() }) + catch_sounds(p1, gs1, gs1.len() as int));
            assert forall|i: int| 0 <= i < v2.ghosts.len() implies ghost_fit(#[trigger] v2.ghosts[i], v2.clicks as int) by {
                assert(ghost_fit(v0.ghosts[i], v0.clicks as int));
                assert(ghost_moved(v0.ghosts[i], gs1[i], v0.player, v0.maze));
            }
            if walled_game(v0) {
                assert forall|i: int| 0 <= i < v2.ghosts.len() implies ghost_in_bounds(#[trigger] v2.ghosts[i]) by {
                    assert(ghost_fit(v0.ghosts[i], v0.clicks as int));
                    assert(ghost_in_bounds(v0.ghosts[i]));
                    lemma_smart_paced_bound(v0.ghosts[i]);
                    assert(ghost_ready(retarget(v0.ghosts[i], v0.player)));
                    assert(ghost_moved(v0.ghosts[i], gs1[i], v0.player, v0.maze));
                    assert(ghost_at_start(gs1[i]).startx == v0.ghosts[i].startx);
                }
            }
        }
        let reloaded = self.count_pills <= 0;
        if reloaded {
            self.new_level();
            proof {
                lemma_count_in_grid_bounds(v0.fresh_maze, MAZE_Y as int, '*');
            }
        }
        if self.player.lives <= 0 {
            self.state = GameState::End;
        } else {
            self.state = GameState::Play;
        }
        Frame { eaten, eaten_x: x, eaten_y: y, sounds, ghost_texture: sprite, maze_reloaded: reloaded }
    }
}

impl Game {
    /// One frame of the game with the ghosts' draws `dice`; see `game_step`.
    /// The game stays fit to play on.  A frame of play needs the player and
    /// the ghosts inside the maze (`actors_inside`); in a maze walled all
    /// round every frame leaves them there, in another they may wander off
    /// it, and then no further frame of play can be taken.
    pub fn tick_with(&mut self, space_pressed: bool, dice: &Vec<Dice>) -> (frame: Frame)
        requires
            game_ok(old(self)@),
            frames_left(old(self)@),
            old(self)@.state == GameState::Play ==> actors_inside(old(self)@),
            dice@.len() == old(self)@.ghosts.len(),
            forall|i: int| 0 <= i < dice@.len() ==> fair_dice(#[trigger] dice@[i]),
        ensures
            (final(self)@, frame@) == game_step(old(self)@, space_pressed, dice@),
            game_ok(final(self)@),
            walled_game(old(self)@) && actors_inside(old(self)@) ==> walled_game(final(self)@) && actors_inside(final(self)@),
    {
        let ghost v0 = self@;
        self.clicks = self.clicks + 1;
        proof {
            assert forall|i: int| 0 <= i < self@.ghosts.len() implies ghost_fit(#[trigger] self@.ghosts[i], self@.clicks as int) by {
                assert(ghost_fit(v0.ghosts[i], v0.clicks as int));
            }
        }
        match self.state {
            GameState::Start => {
                if self.clicks > TITLE_FRAMES {
                    self.state = GameState::Play;
                }
                Frame::quiet()
            },
            GameState::Play => {
                proof {
                    assert forall|i: int| 0 <= i < self@.ghosts.len() implies #[trigger] self@.ghosts[i].clicks < self@.clicks by {
                        assert(ghost_fit(v0.ghosts[i], v0.clicks as int));
                    }
                }
                self.play(dice)
            },
            GameState::End => {
                if space_pressed {
                    self.player.lives = LIVES;
                    self.player.score = 0;
                    self.state = GameState::Play;
                    self.new_level();
                    proof {
                        lemma_count_in_grid_bounds(v0.fresh_maze, MAZE_Y as int, '*');
                    }
                    let mut f = Frame::quiet();
                    f.maze_reloaded = true;
                    f
                } else {
                    Frame::quiet()
                }
            },
        }
    }

    /// One frame of the game, with fresh random draws for the ghosts.  The
    /// result is `game_step` for some draws in the ranges the game uses.
    pub fn tick(&mut self, space_pressed: bool) -> (frame: Frame)
        requires
            game_ok(old(self)@),
            frames_left(old(self)@),
            old(self)@.state == GameState::Play ==> actors_inside(old(self)@),
        ensures
            exists|dice: Seq<Dice>| dice.len() == old(self)@.ghosts.len()
                && (forall|i: int| 0 <= i < dice.len() ==> fair_dice(#[trigger] dice[i]))
                && (final(self)@, frame@) == game_step(old(self)@, space_pressed, dice),
            game_ok(final(self)@),
            walled_game(old(self)@) && actors_inside(old(self)@) ==> walled_game(final(self)@) && actors_inside(final(self)@),
    {
        let dice = roll_all_dice(self.ghosts.len());
        self.tick_with(space_pressed, &dice)
    }
}

impl Frame {
    /// A frame in which nothing is eaten, heard or rebuilt.
    pub fn quiet() -> (f: Frame)
        ensures
            f@ == quiet_frame(),
    {
        Frame { eaten: false, eaten_x: 0, eaten_y: 0, sounds: Vec::new(), ghost_texture: 0, maze_reloaded: false }
    }
}

/// What a key press does to the game.
pub open spec fn key_effect(v: GameView, key: Key) -> GameView {
    match key {
        Key::Left => GameView { player: Player { x_dir: -1i32, ..v.player }, ..v },
        Key::Right => GameView { player: Player { x_dir: 1, ..v.player }, ..v },
        Key::Up => GameView { player: Player { y_dir: -1i32, ..v.player }, ..v },
        Key::Down => GameView { player: Player { y_dir: 1, ..v.player }, ..v },
        Key::FreezeGhosts => GameView { ghosts: v.ghosts.map_values(|g: Phantom| Phantom { stop: true, ..g }), ..v },
        Key::ReleaseGhosts => GameView { ghosts: v.ghosts.map_values(|g: Phantom| Phantom { stop: false, ..g }), ..v },
    }
}

/// The arrow keys steer the player on screen: a player standing still inside
/// the maze, with the way free for two pixels in the arrow's direction, moves
/// one pixel that way on its next frame (up is towards smaller `y`, left
/// towards smaller `x`) and no pixel across.
pub proof fn lemma_arrows_steer(v: GameView, m: Seq<Seq<char>>)
    requires
        player_in_bounds(v.player),
        v.player.x_dir == 0 && v.player.y_dir == 0,
        v.player.inertia_x == 0 && v.player.inertia_y == 0,
    ensures
        ({
            let (x, y) = (v.player.x as int, v.player.y as int);
            &&& player_move_ok(m, x, y - 1) && player_move_ok(m, x, y - 2) ==> {
                let q = player_render(key_effect(v, Key::Up).player, m).0;
                q.x == x && q.y == y - 1
            }
            &&& player_move_ok(m, x, y + 1) && player_move_ok(m, x, y + 2) ==> {
                let q = player_render(key_effect(v, Key::Down).player, m).0;
                q.x == x && q.y == y + 1
            }
            &&& player_move_ok(m, x - 1, y) && player_move_ok(m, x - 2, y) ==> {
                let q = player_render(key_effect(v, Key::Left).player, m).0;
                q.x == x - 1 && q.y == y
            }
            &&& player_move_ok(m, x + 1, y) && player_move_ok(m, x + 2, y) ==> {
                let q = player_render(key_effect(v, Key::Right).player, m).0;
                q.x == x + 1 && q.y == y
            }
        }),
{
}

} // verus!
