use vstd::prelude::*;
use vstd::arithmetic::div_mod::{lemma_fundamental_div_mod, lemma_fundamental_div_mod_converse, lemma_mod_bound};

verus! {

/// Side of one maze square, in pixels.
pub const SQUARE_SIZE: usize = 8;
/// Gap left around a pill inside its square, in pixels.
pub const BORDER: usize = 1;
/// Bytes per pixel of the RGB24 textures the maze is drawn into.
pub const BYTES_PER_PIXEL: usize = 3;
/// Width of the maze area, in pixels.
pub const MAZE_WIDTH: usize = 800;
/// Height of the maze area, in pixels.
pub const MAZE_HEIGHT: usize = 576;
/// Number of maze rows.
pub const MAZE_Y: usize = MAZE_HEIGHT / SQUARE_SIZE;
/// Number of maze columns.
pub const MAZE_X: usize = MAZE_WIDTH / SQUARE_SIZE;

/// The maze as a grid of characters: row `r`, column `c` is `m[r][c]`.
pub open spec fn grid(maze: &Vec<Vec<char>>) -> Seq<Seq<char>> {
    maze@.map_values(|row: Vec<char>| row@)
}

/// Every one of the `MAZE_Y` rows of play holds at least `MAZE_X` squares
/// (the squares of play; any further ones are never read).
pub open spec fn well_shaped(m: Seq<Seq<char>>) -> bool {
    &&& m.len() >= MAZE_Y
    &&& forall|r: int| 0 <= r < MAZE_Y ==> #[trigger] m[r].len() >= MAZE_X
}

/// A well-shaped maze whose outermost rows and columns are all walls (`'X'`).
pub open spec fn walled(m: Seq<Seq<char>>) -> bool {
    &&& well_shaped(m)
    &&& forall|r: int| 0 <= r < MAZE_Y ==> #[trigger] m[r][0] == 'X'
    &&& forall|r: int| 0 <= r < MAZE_Y ==> #[trigger] m[r][MAZE_X - 1] == 'X'
    &&& forall|c: int| 0 <= c < MAZE_X ==> #[trigger] m[0][c] == 'X'
    &&& forall|c: int| 0 <= c < MAZE_X ==> #[trigger] m[MAZE_Y - 1][c] == 'X'
}

/// Integer division of a pixel coordinate by the square size, rounding towards zero.
pub open spec fn cell_of(v: int) -> int {
    if v >= 0 { v / 8 } else { -((-v) / 8) }
}

/// The maze square that holds pixel `(x, y)`.
pub fn xy_to_cell(x: i32, y: i32) -> (r: (i32, i32))
    ensures
        r.0 == cell_of(x as int),
        r.1 == cell_of(y as int),
{
    let cx = x / (SQUARE_SIZE as i32);
    let cy = y / (SQUARE_SIZE as i32);
    (cx, cy)
}

/// Does the maze have the expected shape and an unbroken wall all round?
pub fn is_walled(maze: &Vec<Vec<char>>) -> (r: bool)
    ensures
        r == walled(grid(maze)),
{
    if maze.len() < MAZE_Y {
        return false;
    }
    let mut r: usize = 0;
    while r < MAZE_Y
        invariant
            maze@.len() >= MAZE_Y,
            r <= MAZE_Y,
            forall|i: int| 0 <= i < r ==> #[trigger] grid(maze)[i].len() >= MAZE_X,
            forall|i: int| 0 <= i < r ==> #[trigger] grid(maze)[i][0] == 'X',
            forall|i: int| 0 <= i < r ==> #[trigger] grid(maze)[i][MAZE_X - 1] == 'X',
        decreases MAZE_Y - r,
    {
        if maze[r].len() < MAZE_X || maze[r][0] != 'X' || maze[r][MAZE_X - 1] != 'X' {
            assert(grid(maze)[r as int] == maze@[r as int]@);
            return false;
        }
        assert(grid(maze)[r as int] == maze@[r as int]@);
        r = r + 1;
    }
    let mut c: usize = 0;
    while c < MAZE_X
        invariant
            well_shaped(grid(maze)),
            forall|i: int| 0 <= i < MAZE_Y ==> #[trigger] grid(maze)[i][0] == 'X' && grid(maze)[i][MAZE_X - 1] == 'X',
            c <= MAZE_X,
            forall|j: int| 0 <= j < c ==> #[trigger] grid(maze)[0][j] == 'X',
            forall|j: int| 0 <= j < c ==> #[trigger] grid(maze)[MAZE_Y - 1][j] == 'X',
        decreases MAZE_X - c,
    {
        assert(grid(maze)[0] == maze@[0]@);
        assert(grid(maze)[MAZE_Y - 1] == maze@[MAZE_Y - 1]@);
        if maze[0][c] != 'X' || maze[MAZE_Y - 1][c] != 'X' {
            return false;
        }
        assert(grid(maze)[0][c as int] == 'X' && grid(maze)[MAZE_Y - 1][c as int] == 'X');
        c = c + 1;
    }
    true
}


/// The square at row `y`, column `x` as the maze text gives it: a character
/// other than a space is copied, everything else is an empty square.
pub open spec fn loaded(lines: Seq<Seq<char>>, y: int, x: int) -> char {
    if 0 <= y < lines.len() && 0 <= x < lines[y].len() && lines[y][x] != ' ' {
        lines[y][x]
    } else {
        ' '
    }
}

/// The square and its eight neighbours are all empty in the maze text.
pub open spec fn open_space(lines: Seq<Seq<char>>, y: int, x: int) -> bool {
    &&& loaded(lines, y - 1, x - 1) == ' ' && loaded(lines, y - 1, x) == ' ' && loaded(lines, y - 1, x + 1) == ' '
    &&& loaded(lines, y, x - 1) == ' ' && loaded(lines, y, x) == ' ' && loaded(lines, y, x + 1) == ' '
    &&& loaded(lines, y + 1, x - 1) == ' ' && loaded(lines, y + 1, x) == ' ' && loaded(lines, y + 1, x + 1) == ' '
}

/// Whether the pill scan, which walks rows `1..MAZE_Y-2` and columns
/// `1..MAZE_X-1` in reading order, drops a pill (`'*'`) on square `(y, x)`:
/// the square and its neighbours must be empty, where a neighbour that the
/// scan has already visited counts as empty only if it got no pill.
pub open spec fn gets_pill(lines: Seq<Seq<char>>, y: int, x: int) -> bool
    decreases y * 100 + x,
{
    if 1 <= y < MAZE_Y - 2 && 1 <= x < MAZE_X - 1 {
        &&& open_space(lines, y, x)
        &&& !gets_pill(lines, y - 1, x - 1)
        &&& !gets_pill(lines, y - 1, x)
        &&& !gets_pill(lines, y - 1, x + 1)
        &&& !gets_pill(lines, y, x - 1)
    } else {
        false
    }
}

/// The square at `(y, x)` of the maze built from the text `lines`.
pub open spec fn built_square(lines: Seq<Seq<char>>, y: int, x: int) -> char {
    if gets_pill(lines, y, x) { '*' } else { loaded(lines, y, x) }
}

/// The maze text only puts characters (other than spaces) inside the grid.
pub open spec fn fits_in_maze(lines: Seq<Seq<char>>) -> bool {
    forall|y: int, x: int|
        0 <= y < lines.len() && 0 <= x < lines[y].len() && #[trigger] lines[y][x] != ' ' ==> y < MAZE_Y && x < MAZE_X
}

/// Builds the maze from the lines of the maze text (each line as its
/// characters): walls and power pills are copied, and every empty square
/// whose neighbours are all empty, away from the edges, gets a pill.
/// The result has `MAZE_Y` rows of `MAZE_X` squares and one more, empty, row.
pub fn read_in_maze(lines: &Vec<Vec<char>>) -> (maze: Vec<Vec<char>>)
    requires
        fits_in_maze(grid(lines)),
    ensures
        maze@.len() == MAZE_Y + 1,
        maze@[MAZE_Y as int]@.len() == 0,
        well_shaped(grid(&maze)),
        forall|y: int| 0 <= y < MAZE_Y ==> #[trigger] grid(&maze)[y].len() == MAZE_X,
        forall|y: int, x: int| 0 <= y < MAZE_Y && 0 <= x < MAZE_X ==>
            #[trigger] grid(&maze)[y][x] == built_square(grid(lines), y, x),
        forall|y: int, x: int| 0 <= y < lines@.len() && 0 <= x < lines@[y]@.len() && #[trigger] lines@[y]@[x] != ' ' ==>
            grid(&maze)[y][x] == lines@[y]@[x],
{
    let ghost t = grid(lines);
    let mut maze: Vec<Vec<char>> = Vec::new();
    let mut y: usize = 0;
    while y < MAZE_Y
        invariant
            t == grid(lines),
            y <= MAZE_Y,
            maze@.len() == y,
            forall|r: int| 0 <= r < y ==> #[trigger] maze@[r]@.len() == MAZE_X,
            forall|r: int, c: int| 0 <= r < y && 0 <= c < MAZE_X ==> #[trigger] maze@[r]@[c] == loaded(t, r, c),
        decreases MAZE_Y - y,
    {
        let mut row: Vec<char> = Vec::new();
        let mut x: usize = 0;
        while x < MAZE_X
            invariant
                t == grid(lines),
                y < MAZE_Y,
                x <= MAZE_X,
                row@.len() == x,
                forall|c: int| 0 <= c < x ==> #[trigger] row@[c] == loaded(t, y as int, c),
            decreases MAZE_X - x,
        {
            let mut ch = ' ';
            if y < lines.len() && x < lines[y].len() {
                assert(t[y as int] == lines@[y as int]@);
                ch = lines[y][x];
            }
            row.push(ch);
            x = x + 1;
        }
        maze.push(row);
        y = y + 1;
    }
    maze.push(Vec::new());
    assert forall|r: int, c: int| 0 <= r < MAZE_Y && 0 <= c < MAZE_X implies
        #[trigger] grid(&maze)[r][c] == loaded(t, r, c) by {
        assert(grid(&maze)[r] == maze@[r]@);
    }

    let mut y: usize = 1;
    while y < MAZE_Y - 2
        invariant
            t == grid(lines),
            1 <= y <= MAZE_Y - 2,
            maze@.len() == MAZE_Y + 1,
            maze@[MAZE_Y as int]@.len() == 0,
            well_shaped(grid(&maze)),
            forall|r: int| 0 <= r < MAZE_Y ==> #[trigger] grid(&maze)[r].len() == MAZE_X,
            forall|r: int, c: int| 0 <= r < MAZE_Y && 0 <= c < MAZE_X ==>
                #[trigger] grid(&maze)[r][c] == if r < y { built_square(t, r, c) } else { loaded(t, r, c) },
        decreases MAZE_Y - y,
    {
        let mut x: usize = 1;
        while x < MAZE_X - 1
            invariant
                t == grid(lines),
                1 <= y < MAZE_Y - 2,
                1 <= x <= MAZE_X - 1,
                maze@.len() == MAZE_Y + 1,
                maze@[MAZE_Y as int]@.len() == 0,
                well_shaped(grid(&maze)),
                forall|r: int| 0 <= r < MAZE_Y ==> #[trigger] grid(&maze)[r].len() == MAZE_X,
                forall|r: int, c: int| 0 <= r < MAZE_Y && 0 <= c < MAZE_X ==>
                    #[trigger] grid(&maze)[r][c] == if r < y || (r == y && c < x) { built_square(t, r, c) } else { loaded(t, r, c) },
            decreases MAZE_X - x,
        {
            let ghost g = grid(&maze);
            let ghost before = maze@;
            assert(g[y - 1] == maze@[y - 1]@);
            assert(g[y as int] == maze@[y as int]@);
            assert(g[y + 1] == maze@[y + 1]@);
            let here = maze[y][x] == ' ' && maze[y][x - 1] == ' ' && maze[y][x + 1] == ' '
                && maze[y - 1][x] == ' ' && maze[y - 1][x - 1] == ' ' && maze[y - 1][x + 1] == ' '
                && maze[y + 1][x] == ' ' && maze[y + 1][x + 1] == ' ' && maze[y + 1][x - 1] == ' ';
            proof {
                assert(g[y - 1][x - 1] == built_square(t, y - 1, x - 1));
                assert(g[y - 1][x as int] == built_square(t, y - 1, x as int));
                assert(g[y - 1][x + 1] == built_square(t, y - 1, x + 1));
                assert(g[y as int][x - 1] == built_square(t, y as int, x - 1));
                assert(g[y as int][x as int] == loaded(t, y as int, x as int));
                assert(g[y as int][x + 1] == loaded(t, y as int, x + 1));
                assert(g[y + 1][x - 1] == loaded(t, y + 1, x - 1));
                assert(g[y + 1][x as int] == loaded(t, y + 1, x as int));
                assert(g[y + 1][x + 1] == loaded(t, y + 1, x + 1));
                assert(here == gets_pill(t, y as int, x as int));
            }
            if here {
                let mut row = maze[y].clone();
                row.set(x, '*');
                maze.set(y, row);
            }
            proof {
                assert forall|r: int, c: int| 0 <= r < MAZE_Y && 0 <= c < MAZE_X implies
                    #[trigger] grid(&maze)[r][c] == if r < y || (r == y && c < x + 1) { built_square(t, r, c) } else { loaded(t, r, c) } by {
                    assert(grid(&maze)[r] == maze@[r]@);
                    assert(g[r] == before[r]@);
                    if r != y || !here {
                        assert(maze@[r] == before[r]);
                    }
                }
                assert forall|r: int| 0 <= r < MAZE_Y implies #[trigger] grid(&maze)[r].len() == MAZE_X by {
                    assert(grid(&maze)[r] == maze@[r]@);
                    assert(g[r] == before[r]@);
                }
            }
            x = x + 1;
        }
        y = y + 1;
    }
    proof {
        assert forall|y: int, x: int| 0 <= y < lines@.len() && 0 <= x < lines@[y]@.len() && #[trigger] lines@[y]@[x] != ' ' implies
            grid(&maze)[y][x] == lines@[y]@[x] by {
            assert(t[y] == lines@[y]@);
            assert(t[y][x] != ' ');
            assert(y < MAZE_Y && x < MAZE_X);
            lemma_text_kept(t, y, x);
        }
    }
    maze
}


/// How many of the first `n` squares of `row` hold `c`.
pub open spec fn count_in_row(row: Seq<char>, n: int, c: char) -> int
    decreases n,
{
    if n <= 0 {
        0
    } else {
        count_in_row(row, n - 1, c) + if row[n - 1] == c { 1int } else { 0int }
    }
}

/// How many squares of the first `rows` rows (`MAZE_X` squares each) hold `c`.
pub open spec fn count_in_grid(m: Seq<Seq<char>>, rows: int, c: char) -> int
    decreases rows,
{
    if rows <= 0 {
        0
    } else {
        count_in_grid(m, rows - 1, c) + count_in_row(m[rows - 1], MAZE_X as int, c)
    }
}

/// How many squares of the maze hold `c`.
pub open spec fn count_squares(m: Seq<Seq<char>>, c: char) -> int {
    count_in_grid(m, MAZE_Y as int, c)
}

/// The maze `m` with the square at row `y`, column `x` replaced by `v`.
pub open spec fn with_square(m: Seq<Seq<char>>, y: int, x: int, v: char) -> Seq<Seq<char>> {
    m.update(y, m[y].update(x, v))
}

/// A row holds between none and all of its squares of any kind.
pub proof fn lemma_count_in_row_bounds(row: Seq<char>, n: int, c: char)
    requires
        0 <= n,
    ensures
        0 <= count_in_row(row, n, c) <= n,
    decreases n,
{
    if n > 0 {
        lemma_count_in_row_bounds(row, n - 1, c);
    }
}

/// The first `rows` rows hold between none and all of their squares of any kind.
pub proof fn lemma_count_in_grid_bounds(m: Seq<Seq<char>>, rows: int, c: char)
    requires
        0 <= rows,
    ensures
        0 <= count_in_grid(m, rows, c) <= rows * MAZE_X,
    decreases rows,
{
    if rows > 0 {
        lemma_count_in_grid_bounds(m, rows - 1, c);
        lemma_count_in_row_bounds(m[rows - 1], MAZE_X as int, c);
    }
}

proof fn lemma_count_in_row_update(row: Seq<char>, n: int, x: int, v: char, c: char)
    requires
        0 <= x < row.len(),
        0 <= n <= row.len(),
    ensures
        count_in_row(row.update(x, v), n, c) == count_in_row(row, n, c) + if x < n {
            (if v == c { 1int } else { 0int }) - (if row[x] == c { 1int } else { 0int })
        } else {
            0int
        },
    decreases n,
{
    if n > 0 {
        lemma_count_in_row_update(row, n - 1, x, v, c);
    }
}

proof fn lemma_count_in_grid_update(m: Seq<Seq<char>>, rows: int, y: int, x: int, v: char, c: char)
    requires
        well_shaped(m),
        0 <= rows <= MAZE_Y,
        0 <= y < MAZE_Y,
        0 <= x < MAZE_X,
    ensures
        count_in_grid(with_square(m, y, x, v), rows, c) == count_in_grid(m, rows, c) + if y < rows {
            (if v == c { 1int } else { 0int }) - (if m[y][x] == c { 1int } else { 0int })
        } else {
            0int
        },
    decreases rows,
{
    if rows > 0 {
        lemma_count_in_grid_update(m, rows - 1, y, x, v, c);
        if rows - 1 == y {
            lemma_count_in_row_update(m[y], MAZE_X as int, x, v, c);
        } else {
            assert(with_square(m, y, x, v)[rows - 1] == m[rows - 1]);
        }
    }
}

/// Replacing one square of the maze moves one unit of count from the old
/// character of that square to the new one, and leaves every other
/// character's count alone.
pub proof fn lemma_count_squares_update(m: Seq<Seq<char>>, y: int, x: int, v: char, c: char)
    requires
        well_shaped(m),
        0 <= y < MAZE_Y,
        0 <= x < MAZE_X,
    ensures
        count_squares(with_square(m, y, x, v), c) == count_squares(m, c)
            + (if v == c { 1int } else { 0int }) - (if m[y][x] == c { 1int } else { 0int }),
{
    lemma_count_in_grid_update(m, MAZE_Y as int, y, x, v, c);
}

/// Every character of the maze text other than a space (a wall, a gate, a
/// power pill or anything else) is kept on its square of the built maze.
pub proof fn lemma_text_kept(lines: Seq<Seq<char>>, y: int, x: int)
    requires
        0 <= y < lines.len(),
        0 <= x < lines[y].len(),
        lines[y][x] != ' ',
    ensures
        built_square(lines, y, x) == lines[y][x],
{
    assert(loaded(lines, y, x) == lines[y][x]);
    assert(!gets_pill(lines, y, x));
}

/// Pills are spread out: no two squares next to each other (across, down or
/// diagonally) both get a pill when the maze is built.
pub proof fn lemma_pills_spread_out(lines: Seq<Seq<char>>, y: int, x: int, dy: int, dx: int)
    requires
        -1 <= dy <= 1,
        -1 <= dx <= 1,
        dy != 0 || dx != 0,
    ensures
        !(gets_pill(lines, y, x) && gets_pill(lines, y + dy, x + dx)),
{
    if dy > 0 || (dy == 0 && dx > 0) {
        if gets_pill(lines, y + dy, x + dx) {
            assert(!gets_pill(lines, y, x));
        }
    } else {
        if gets_pill(lines, y, x) {
            assert(!gets_pill(lines, y + dy, x + dx));
        }
    }
}

/// A pill only ever lands on a square that the maze text left empty, with
/// empty squares all round it, and never on the outer two rows or columns
/// of the grid nor on the last two rows.
pub proof fn lemma_pills_on_open_ground(lines: Seq<Seq<char>>, y: int, x: int)
    requires
        gets_pill(lines, y, x),
    ensures
        loaded(lines, y, x) == ' ',
        open_space(lines, y, x),
        1 <= y < MAZE_Y - 2,
        1 <= x < MAZE_X - 1,
{
}

/// Counts the pills (`'*'`) in the maze.
pub fn count_pills(maze: &Vec<Vec<char>>) -> (n: i32)
    requires
        well_shaped(grid(maze)),
    ensures
        n == count_squares(grid(maze), '*'),
{
    let ghost m = grid(maze);
    let mut n: i32 = 0;
    let mut y: usize = 0;
    while y < MAZE_Y
        invariant
            m == grid(maze),
            well_shaped(m),
            y <= MAZE_Y,
            n == count_in_grid(m, y as int, '*'),
        decreases MAZE_Y - y,
    {
        assert(m[y as int] == maze@[y as int]@);
        let mut x: usize = 0;
        while x < MAZE_X
            invariant
                m == grid(maze),
                well_shaped(m),
                y < MAZE_Y,
                x <= MAZE_X,
                m[y as int] == maze@[y as int]@,
                n == count_in_grid(m, y as int, '*') + count_in_row(m[y as int], x as int, '*'),
            decreases MAZE_X - x,
        {
            proof {
                lemma_count_in_grid_bounds(m, y as int, '*');
                lemma_count_in_row_bounds(m[y as int], x as int, '*');
            }
            if maze[y][x] == '*' {
                n = n + 1;
            }
            x = x + 1;
        }
        y = y + 1;
    }
    n
}


/// Emptying a square that is not a wall keeps a walled maze walled.
pub proof fn lemma_walled_after_clearing(m: Seq<Seq<char>>, y: int, x: int, v: char)
    requires
        walled(m),
        0 <= y < MAZE_Y,
        0 <= x < MAZE_X,
        m[y][x] != 'X',
    ensures
        walled(with_square(m, y, x, v)),
{
    let m2 = with_square(m, y, x, v);
    assert forall|r: int| 0 <= r < MAZE_Y implies #[trigger] m2[r].len() == m[r].len() by {
        if r != y { assert(m2[r] == m[r]); }
    }
    assert forall|r: int| 0 <= r < MAZE_Y implies #[trigger] m2[r][0] == 'X' by {
        assert(m[r][0] == 'X');
        if r != y { assert(m2[r] == m[r]); }
    }
    assert forall|r: int| 0 <= r < MAZE_Y implies #[trigger] m2[r][MAZE_X - 1] == 'X' by {
        assert(m[r][MAZE_X - 1] == 'X');
        if r != y { assert(m2[r] == m[r]); }
    }
    assert forall|c: int| 0 <= c < MAZE_X implies #[trigger] m2[0][c] == 'X' by {
        assert(m[0][c] == 'X');
        if 0 != y { assert(m2[0] == m[0]); }
    }
    assert forall|c: int| 0 <= c < MAZE_X implies #[trigger] m2[MAZE_Y - 1][c] == 'X' by {
        assert(m[MAZE_Y - 1][c] == 'X');
        if MAZE_Y - 1 != y { assert(m2[MAZE_Y - 1] == m[MAZE_Y - 1]); }
    }
}


/// A colour as red, green and blue bytes.
#[derive(Clone, Copy)]
pub struct Colour {
    pub r: u8,
    pub g: u8,
    pub b: u8,
}

/// Byte `k` (0 red, 1 green, 2 blue) of a colour.
pub open spec fn channel(c: Colour, k: int) -> u8 {
    if k == 0 { c.r } else if k == 1 { c.g } else { c.b }
}

/// The pixel row of byte `j` of an RGB24 buffer with `pitch` bytes a row.
pub open spec fn byte_row(pitch: int, j: int) -> int {
    j / pitch
}

/// The pixel column of byte `j`.
pub open spec fn byte_px(pitch: int, j: int) -> int {
    (j % pitch) / 3
}

/// Which colour channel byte `j` holds.
pub open spec fn byte_channel(pitch: int, j: int) -> int {
    (j % pitch) % 3
}

/// Byte `j` lies in the pixels of maze square `(y, x)`, less `inset`
/// pixels all round.
pub open spec fn in_square(pitch: int, j: int, y: int, x: int, inset: int) -> bool {
    &&& 8 * y + inset <= byte_row(pitch, j) < 8 * y + 8 - inset
    &&& 8 * x + inset <= byte_px(pitch, j) < 8 * x + 8 - inset
}

/// The byte at row `row`, pixel column `px`, channel `k` sits at
/// `row * pitch + px * 3 + k`, and every byte has that form.
pub proof fn lemma_byte_at(pitch: int, row: int, px: int, k: int)
    requires
        0 <= row,
        0 <= px,
        0 <= k < 3,
        px * 3 + k < pitch,
    ensures
        byte_row(pitch, row * pitch + px * 3 + k) == row,
        byte_px(pitch, row * pitch + px * 3 + k) == px,
        byte_channel(pitch, row * pitch + px * 3 + k) == k,
{
    lemma_fundamental_div_mod_converse(row * pitch + px * 3 + k, pitch, row, px * 3 + k);
}

/// Every byte is at some row, pixel column and channel.
pub proof fn lemma_byte_split(pitch: int, j: int)
    requires
        pitch > 0,
        0 <= j,
    ensures
        j == byte_row(pitch, j) * pitch + byte_px(pitch, j) * 3 + byte_channel(pitch, j),
        0 <= byte_row(pitch, j),
        0 <= byte_channel(pitch, j) < 3,
        0 <= byte_px(pitch, j),
        byte_px(pitch, j) * 3 + byte_channel(pitch, j) < pitch,
{
    lemma_fundamental_div_mod(j, pitch);
    lemma_mod_bound(j, pitch);
    assert(pitch * (j / pitch) == (j / pitch) * pitch) by (nonlinear_arith);
    assert(j / pitch >= 0) by (nonlinear_arith) requires j >= 0, pitch > 0;
}

/// Paints the pixels of maze square `(y, x)`, less `inset` pixels all round,
/// in `colour`, in an RGB24 buffer of at least `MAZE_HEIGHT` rows of
/// `pitch` bytes, each row holding at least `MAZE_WIDTH` pixels.
fn fill_square(buffer: &mut Vec<u8>, pitch: usize, y: usize, x: usize, inset: usize, colour: Colour)
    requires
        pitch >= 2400,
        y < MAZE_Y,
        x < MAZE_X,
        inset <= 1,
        old(buffer)@.len() >= 576 * pitch,
    ensures
        final(buffer)@.len() == old(buffer)@.len(),
        forall|j: int| 0 <= j < old(buffer)@.len() ==> #[trigger] final(buffer)@[j] == if in_square(pitch as int, j, y as int, x as int, inset as int) {
            channel(colour, byte_channel(pitch as int, j))
        } else {
            old(buffer)@[j]
        },
{
    let ghost b0 = buffer@;
    let ghost p = pitch as int;
    let len = buffer.len();
    let xxx = x * SQUARE_SIZE;
    let yyy = y * SQUARE_SIZE;
    let mut xx = xxx + inset;
    while xx < xxx + SQUARE_SIZE - inset
        invariant
            b0 == old(buffer)@,
            p == pitch as int,
            pitch >= 2400,
            y < MAZE_Y,
            x < MAZE_X,
            inset <= 1,
            xxx == 8 * x,
            yyy == 8 * y,
            b0.len() >= 576 * pitch,
            len == b0.len(),
            xxx + inset <= xx <= xxx + 8 - inset,
            buffer@.len() == b0.len(),
            forall|j: int| 0 <= j < b0.len() ==> #[trigger] buffer@[j] == if in_square(p, j, y as int, x as int, inset as int) && byte_px(p, j) < xx {
                channel(colour, byte_channel(p, j))
            } else {
                b0[j]
            },
        decreases xxx + SQUARE_SIZE - inset - xx,
    {
        let mut yy = yyy + inset;
        while yy < yyy + SQUARE_SIZE - inset
            invariant
                b0 == old(buffer)@,
                p == pitch as int,
                pitch >= 2400,
                y < MAZE_Y,
                x < MAZE_X,
                inset <= 1,
                xxx == 8 * x,
                yyy == 8 * y,
                b0.len() >= 576 * pitch,
                len == b0.len(),
                xxx + inset <= xx < xxx + 8 - inset,
                yyy + inset <= yy <= yyy + 8 - inset,
                buffer@.len() == b0.len(),
                forall|j: int| 0 <= j < b0.len() ==> #[trigger] buffer@[j] == if in_square(p, j, y as int, x as int, inset as int)
                    && (byte_px(p, j) < xx || (byte_px(p, j) == xx && byte_row(p, j) < yy)) {
                    channel(colour, byte_channel(p, j))
                } else {
                    b0[j]
                },
            decreases yyy + SQUARE_SIZE - inset - yy,
        {
            assert(yy * pitch + xx * 3 + 2 < 576 * pitch) by (nonlinear_arith)
                requires yy < 576, xx < 800, pitch >= 2400;
            let offset = yy * pitch + xx * 3;
            let ghost before = buffer@;
            buffer.set(offset, colour.r);
            buffer.set(offset + 1, colour.g);
            buffer.set(offset + 2, colour.b);
            proof {
                lemma_byte_at(p, yy as int, xx as int, 0);
                lemma_byte_at(p, yy as int, xx as int, 1);
                lemma_byte_at(p, yy as int, xx as int, 2);
                assert forall|j: int| 0 <= j < b0.len() implies #[trigger] buffer@[j] == if in_square(p, j, y as int, x as int, inset as int)
                    && (byte_px(p, j) < xx || (byte_px(p, j) == xx && byte_row(p, j) < yy + 1)) {
                    channel(colour, byte_channel(p, j))
                } else {
                    b0[j]
                } by {
                    lemma_byte_split(p, j);
                    if j != offset && j != offset + 1 && j != offset + 2 {
                        assert(buffer@[j] == before[j]);
                        if byte_px(p, j) == xx && byte_row(p, j) == yy {
                            assert(j == yy * pitch + xx * 3 + byte_channel(p, j));
                        }
                    }
                }
            }
            yy = yy + 1;
        }
        xx = xx + 1;
    }
}


/// Paints maze square `(y, x)` whole in `colour`.
pub fn draw_wall_on_texture(buffer: &mut Vec<u8>, pitch: usize, y: usize, x: usize, colour: Colour)
    requires
        pitch >= 2400,
        y < MAZE_Y,
        x < MAZE_X,
        old(buffer)@.len() >= 576 * pitch,
    ensures
        final(buffer)@.len() == old(buffer)@.len(),
        forall|j: int| 0 <= j < old(buffer)@.len() ==> #[trigger] final(buffer)@[j] == if in_square(pitch as int, j, y as int, x as int, 0) {
            channel(colour, byte_channel(pitch as int, j))
        } else {
            old(buffer)@[j]
        },
{
    fill_square(buffer, pitch, y, x, 0, colour);
}

/// Paints maze square `(y, x)`, less a `BORDER` all round, in `colour`.
pub fn draw_pill_on_texture(buffer: &mut Vec<u8>, pitch: usize, y: usize, x: usize, colour: Colour)
    requires
        pitch >= 2400,
        y < MAZE_Y,
        x < MAZE_X,
        old(buffer)@.len() >= 576 * pitch,
    ensures
        final(buffer)@.len() == old(buffer)@.len(),
        forall|j: int| 0 <= j < old(buffer)@.len() ==> #[trigger] final(buffer)@[j] == if in_square(pitch as int, j, y as int, x as int, 1) {
            channel(colour, byte_channel(pitch as int, j))
        } else {
            old(buffer)@[j]
        },
{
    fill_square(buffer, pitch, y, x, BORDER, colour);
}

/// The colours of walls, power pills, pills and gates.
pub open spec fn blue() -> Colour { Colour { r: 0, g: 0, b: 255 } }
pub open spec fn red() -> Colour { Colour { r: 255, g: 0, b: 0 } }
pub open spec fn yellow() -> Colour { Colour { r: 255, g: 255, b: 0 } }
pub open spec fn purple() -> Colour { Colour { r: 133, g: 50, b: 168 } }

/// What the maze picture holds at byte `j`, where `old` was there before:
/// walls (`'X'`) fill their square blue, gates (`'!'`) purple; power pills
/// (`'P'`) red and pills (`'*'`) yellow, each inside a one-pixel border;
/// everything else, and every byte outside the maze, is left as it was.
pub open spec fn maze_byte(m: Seq<Seq<char>>, pitch: int, j: int, old: u8) -> u8 {
    let row = byte_row(pitch, j);
    let px = byte_px(pitch, j);
    let k = byte_channel(pitch, j);
    if row < 576 && px < 800 {
        let c = m[row / 8][px / 8];
        let inner = 1 <= row % 8 < 7 && 1 <= px % 8 < 7;
        if c == 'X' {
            channel(blue(), k)
        } else if c == 'P' && inner {
            channel(red(), k)
        } else if c == '*' && inner {
            channel(yellow(), k)
        } else if c == '!' {
            channel(purple(), k)
        } else {
            old
        }
    } else {
        old
    }
}

/// Draws the maze into an RGB24 buffer of at least `MAZE_HEIGHT` rows of
/// `pitch` bytes (each row at least `MAZE_WIDTH` pixels wide), and counts
/// its pills.
pub fn paint_maze(buffer: &mut Vec<u8>, pitch: usize, maze: &Vec<Vec<char>>) -> (count: i32)
    requires
        pitch >= 2400,
        old(buffer)@.len() >= 576 * pitch,
        well_shaped(grid(maze)),
    ensures
        count == count_squares(grid(maze), '*'),
        final(buffer)@.len() == old(buffer)@.len(),
        forall|j: int| 0 <= j < old(buffer)@.len() ==> #[trigger] final(buffer)@[j] == maze_byte(grid(maze), pitch as int, j, old(buffer)@[j]),
{
    let ghost b0 = buffer@;
    let ghost m = grid(maze);
    let ghost p = pitch as int;
    let mut count_pills: i32 = 0;
    let mut y: usize = 0;
    while y < MAZE_Y
        invariant
            b0 == old(buffer)@,
            m == grid(maze),
            p == pitch as int,
            well_shaped(m),
            pitch >= 2400,
            b0.len() >= 576 * pitch,
            y <= MAZE_Y,
            buffer@.len() == b0.len(),
            count_pills == count_in_grid(m, y as int, '*'),
            forall|j: int| 0 <= j < b0.len() ==> #[trigger] buffer@[j] == if byte_row(p, j) < 8 * y {
                maze_byte(m, p, j, b0[j])
            } else {
                b0[j]
            },
        decreases MAZE_Y - y,
    {
        assert(m[y as int] == maze@[y as int]@);
        let mut x: usize = 0;
        while x < MAZE_X
            invariant
                b0 == old(buffer)@,
                m == grid(maze),
                p == pitch as int,
                well_shaped(m),
                pitch >= 2400,
                b0.len() >= 576 * pitch,
                y < MAZE_Y,
                x <= MAZE_X,
                m[y as int] == maze@[y as int]@,
                buffer@.len() == b0.len(),
                count_pills == count_in_grid(m, y as int, '*') + count_in_row(m[y as int], x as int, '*'),
                forall|j: int| 0 <= j < b0.len() ==> #[trigger] buffer@[j] == if byte_row(p, j) < 8 * y
                    || (byte_row(p, j) < 8 * y + 8 && byte_px(p, j) < 8 * x) {
                    maze_byte(m, p, j, b0[j])
                } else {
                    b0[j]
                },
            decreases MAZE_X - x,
        {
            proof {
                lemma_count_in_grid_bounds(m, y as int, '*');
                lemma_count_in_row_bounds(m[y as int], x as int, '*');
            }
            let c = maze[y][x];
            let ghost before = buffer@;
            if c == 'X' {
                draw_wall_on_texture(buffer, pitch, y, x, Colour { r: 0, g: 0, b: 255 });
            } else if c == 'P' {
                draw_pill_on_texture(buffer, pitch, y, x, Colour { r: 255, g: 0, b: 0 });
            } else if c == '*' {
                draw_pill_on_texture(buffer, pitch, y, x, Colour { r: 255, g: 255, b: 0 });
                count_pills = count_pills + 1;
            } else if c == '!' {
                draw_wall_on_texture(buffer, pitch, y, x, Colour { r: 133, g: 50, b: 168 });
            }
            proof {
                assert forall|j: int| 0 <= j < b0.len() implies #[trigger] buffer@[j] == if byte_row(p, j) < 8 * y
                    || (byte_row(p, j) < 8 * y + 8 && byte_px(p, j) < 8 * x + 8) {
                    maze_byte(m, p, j, b0[j])
                } else {
                    b0[j]
                } by {
                    lemma_byte_split(p, j);
                    let row = byte_row(p, j);
                    let px = byte_px(p, j);
                    if 8 * y <= row < 8 * y + 8 && 8 * x <= px < 8 * x + 8 {
                        assert(row / 8 == y && px / 8 == x);
                        assert(before[j] == b0[j]);
                    } else {
                        assert(!in_square(p, j, y as int, x as int, 0));
                        assert(!in_square(p, j, y as int, x as int, 1));
                        assert(buffer@[j] == before[j]);
                    }
                }
            }
            x = x + 1;
        }
        y = y + 1;
    }
    proof {
        assert forall|j: int| 0 <= j < b0.len() implies #[trigger] buffer@[j] == maze_byte(m, p, j, b0[j]) by {
            if byte_row(p, j) >= 576 {
                assert(buffer@[j] == b0[j]);
            }
        }
    }
    count_pills
}

} // verus!
