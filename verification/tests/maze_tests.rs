use rustman::rustman::maze_maker::{
    count_pills, draw_pill_on_texture, draw_wall_on_texture, is_walled, paint_maze, read_in_maze, xy_to_cell, Colour,
    MAZE_X, MAZE_Y,
};

fn text(lines: &[&str]) -> Vec<Vec<char>> {
    lines.iter().map(|l| l.chars().collect()).collect()
}

/// A maze text whose outer rows and columns are walls.
fn walled_text() -> Vec<Vec<char>> {
    let mut lines = Vec::new();
    for y in 0..MAZE_Y {
        let mut row = vec![' '; MAZE_X];
        if y == 0 || y == MAZE_Y - 1 {
            row = vec!['X'; MAZE_X];
        }
        row[0] = 'X';
        row[MAZE_X - 1] = 'X';
        lines.push(row);
    }
    lines
}

#[test]
fn xy_to_cell_rounds_towards_zero() {
    assert_eq!(xy_to_cell(17, 16), (2, 2));
    assert_eq!(xy_to_cell(-9, -1), (-1, 0));
    assert_eq!(xy_to_cell(7, 8), (0, 1));
}

#[test]
fn read_in_maze_has_the_grid_shape() {
    let maze = read_in_maze(&Vec::new());
    assert_eq!(maze.len(), MAZE_Y + 1);
    for y in 0..MAZE_Y {
        assert_eq!(maze[y].len(), MAZE_X);
    }
    assert!(maze[MAZE_Y].is_empty());
}

#[test]
fn read_in_maze_spreads_pills_over_open_ground() {
    let maze = read_in_maze(&Vec::new());
    // the scan starts at (1, 1): it gets a pill, its neighbours do not
    assert_eq!(maze[1][1], '*');
    assert_eq!(maze[1][2], ' ');
    assert_eq!(maze[2][1], ' ');
    assert_eq!(maze[2][2], ' ');
    assert_eq!(maze[1][3], '*');
    assert_eq!(maze[3][1], '*');
    // nothing on the edges or the last two rows of play
    assert_eq!(maze[0][5], ' ');
    assert_eq!(maze[5][0], ' ');
    assert_eq!(maze[MAZE_Y - 2][5], ' ');
    assert_eq!(maze[5][MAZE_X - 1], ' ');
    // no two pills touch
    for y in 1..MAZE_Y - 1 {
        for x in 1..MAZE_X - 1 {
            if maze[y][x] == '*' {
                assert_ne!(maze[y][x + 1], '*');
                assert_ne!(maze[y + 1][x], '*');
                assert_ne!(maze[y + 1][x + 1], '*');
                assert_ne!(maze[y + 1][x - 1], '*');
            }
        }
    }
}

#[test]
fn read_in_maze_keeps_the_text_and_avoids_walls() {
    let lines = text(&["", "", "", "", "    XP"]);
    let maze = read_in_maze(&lines);
    assert_eq!(maze[4][4], 'X');
    assert_eq!(maze[4][5], 'P');
    // the squares around the wall get no pill
    assert_eq!(maze[3][3], ' ');
    assert_eq!(maze[5][5], ' ');
    assert_eq!(maze[5][3], ' ');
}

#[test]
fn count_pills_counts_only_pills() {
    let mut lines = walled_text();
    lines[10] = vec!['X'; MAZE_X];
    let mut maze = read_in_maze(&Vec::new());
    let open = count_pills(&maze);
    assert!(open > 0);
    maze[1][1] = 'P';
    assert_eq!(count_pills(&maze), open - 1);
    maze[1][2] = '*';
    assert_eq!(count_pills(&maze), open);
}

#[test]
fn walled_mazes_are_recognised() {
    let walled = read_in_maze(&walled_text());
    assert!(is_walled(&walled));
    let open = read_in_maze(&Vec::new());
    assert!(!is_walled(&open));
    let mut gap = walled.clone();
    gap[30][0] = ' ';
    assert!(!is_walled(&gap));
    let mut short: Vec<Vec<char>> = walled.clone();
    short.truncate(10);
    assert!(!is_walled(&short));
    let mut long = walled.clone();
    long[5].push(' ');
    assert!(is_walled(&long));
    let mut narrow = walled.clone();
    narrow[5].pop();
    assert!(!is_walled(&narrow));
}

const PITCH: usize = 2400;

#[test]
fn draw_wall_fills_the_whole_square() {
    let mut buffer = vec![7u8; PITCH * 577];
    draw_wall_on_texture(&mut buffer, PITCH, 2, 3, Colour { r: 1, g: 2, b: 3 });
    // square (2, 3) is pixel rows 16..24, pixel columns 24..32
    assert_eq!(&buffer[16 * PITCH + 24 * 3..16 * PITCH + 24 * 3 + 3], &[1, 2, 3]);
    assert_eq!(&buffer[23 * PITCH + 31 * 3..23 * PITCH + 31 * 3 + 3], &[1, 2, 3]);
    assert_eq!(buffer[15 * PITCH + 24 * 3], 7);
    assert_eq!(buffer[16 * PITCH + 32 * 3], 7);
    assert_eq!(buffer[24 * PITCH + 24 * 3], 7);
}

#[test]
fn draw_pill_leaves_a_border() {
    let mut buffer = vec![7u8; PITCH * 577];
    draw_pill_on_texture(&mut buffer, PITCH, 0, 0, Colour { r: 9, g: 8, b: 6 });
    assert_eq!(buffer[0], 7);
    assert_eq!(&buffer[PITCH + 3..PITCH + 6], &[9, 8, 6]);
    assert_eq!(&buffer[6 * PITCH + 18..6 * PITCH + 21], &[9, 8, 6]);
    assert_eq!(buffer[7 * PITCH + 18], 7);
    assert_eq!(buffer[6 * PITCH + 21], 7);
}

#[test]
fn paint_maze_draws_each_kind_of_square() {
    let mut maze = read_in_maze(&walled_text());
    maze[5][5] = 'P';
    maze[5][6] = '!';
    let pills = count_pills(&maze);
    let mut buffer = vec![0u8; PITCH * 577];
    let counted = paint_maze(&mut buffer, PITCH, &maze);
    assert_eq!(counted, pills);
    // wall at (0, 0): blue
    assert_eq!(&buffer[0..3], &[0, 0, 255]);
    // power pill at (5, 5): red inside, untouched on its border
    assert_eq!(&buffer[41 * PITCH + 41 * 3..41 * PITCH + 41 * 3 + 3], &[255, 0, 0]);
    assert_eq!(buffer[40 * PITCH + 40 * 3], 0);
    // gate at (5, 6): purple throughout
    assert_eq!(&buffer[40 * PITCH + 48 * 3..40 * PITCH + 48 * 3 + 3], &[133, 50, 168]);
    // a pill: yellow inside
    let (py, px) = (1..MAZE_Y)
        .flat_map(|y| (1..MAZE_X).map(move |x| (y, x)))
        .find(|&(y, x)| maze[y][x] == '*')
        .unwrap();
    let at = (py * 8 + 3) * PITCH + (px * 8 + 3) * 3;
    assert_eq!(&buffer[at..at + 3], &[255, 255, 0]);
    // the spare bottom row of the texture is untouched
    assert_eq!(buffer[576 * PITCH], 0);
}
