//! The colour codes of one scan line, from the maze and the ball.
//!
//! The panel is driven as two halves of thirty-two lines each, scanned
//! together: one code holds the colours of the pixel in the upper half
//! (bits 5 to 3: red, green, blue) and of the pixel thirty-two lines below
//! it (bits 2 to 0). A maze cell covers four by four pixels. Its first line
//! shows the wall above it and its first column the wall to its left, and
//! the pixel where the two meet is the cell's corner.

use vstd::prelude::*;
use crate::ball::{Ball, CELL_PIXELS, PANEL_WIDTH, PWM_FREQUENCY};
use crate::maze::{Maze, Point};

verus! {

/// Pixels in one scan line.
pub const PANEL_COLUMNS: usize = 128;

/// Scan lines in one half of the panel.
pub const SCAN_ROWS: u8 = 32;

/// Maze rows shown by one half of the panel.
pub const HALF_ROWS: u8 = 8;

/// Red in the upper half: a wall.
pub const WALL_UPPER: u8 = 0b100000;

/// Red in the lower half: a wall.
pub const WALL_LOWER: u8 = 0b000100;

/// Blue in the upper half: the cell where the round starts.
pub const START_UPPER: u8 = 0b001000;

/// Blue in the lower half: the cell where the round starts.
pub const START_LOWER: u8 = 0b000001;

/// Green in the upper half: the cell where the round ends.
pub const END_UPPER: u8 = 0b010000;

/// Green in the lower half: the cell where the round ends.
pub const END_LOWER: u8 = 0b000010;

/// The bits of a code that show walls.
pub const WALL_BITS: u8 = 0b100100;

/// The bits of a code that show the start and the end.
pub const MARK_BITS: u8 = 0b011011;

/// White in the upper half: the ball.
pub const BALL_UPPER: u8 = 0b111000;

/// White in the lower half: the ball.
pub const BALL_LOWER: u8 = 0b000111;

/// The code of a wall pixel that is lit in the given halves.
pub open spec fn wall_code(upper: bool, lower: bool) -> u8 {
    if upper {
        if lower {
            0b100100
        } else {
            WALL_UPPER
        }
    } else {
        if lower {
            WALL_LOWER
        } else {
            0
        }
    }
}

/// The corner of cell `p` is lit: a wall stands above the cell or to its
/// left, or above the cell to its left, or to the left of the cell above.
pub open spec fn corner_lit(maze: &Maze, p: Point) -> bool {
    ||| maze.bitmap_top@.contains(p)
    ||| maze.bitmap_left@.contains(p)
    ||| (p.x > 0 && maze.bitmap_top@.contains(Point { x: (p.x - 1) as u8, y: p.y }))
    ||| (p.y > 0 && maze.bitmap_left@.contains(Point { x: p.x, y: (p.y - 1) as u8 }))
}

/// The mark on the floor of one cell, in the colours of its half of the
/// panel: the start's where the round starts there, else the end's where
/// it ends there, else none.
pub open spec fn half_mark(maze: &Maze, cell: Point, start: u8, end: u8) -> u8 {
    if maze.start == cell {
        start
    } else if maze.end == cell {
        end
    } else {
        0
    }
}

/// The marks on the floor of the cell in column `column` of maze row
/// `maze_row` and of the cell `HALF_ROWS` rows below it, each in the
/// colours of its half.
pub open spec fn marker_code(maze: &Maze, column: u8, maze_row: u8) -> u8 {
    half_mark(maze, Point { x: column, y: maze_row }, START_UPPER, END_UPPER) | half_mark(
        maze,
        Point { x: column, y: (maze_row + HALF_ROWS) as u8 },
        START_LOWER,
        END_LOWER,
    )
}

/// The code at column `col` of scan line `row` before the ball is drawn.
pub open spec fn maze_pixel(maze: &Maze, row: u8, col: int) -> u8 {
    let upper = Point { x: (col / CELL_PIXELS as int) as u8, y: row / CELL_PIXELS as u8 };
    let lower = Point { x: upper.x, y: (upper.y + HALF_ROWS) as u8 };
    if row % CELL_PIXELS as u8 == 0 {
        if col % CELL_PIXELS as int == 0 {
            wall_code(corner_lit(maze, upper), corner_lit(maze, lower))
        } else {
            wall_code(maze.bitmap_top@.contains(upper), maze.bitmap_top@.contains(lower))
        }
    } else {
        if col % CELL_PIXELS as int == 0 {
            wall_code(maze.bitmap_left@.contains(upper), maze.bitmap_left@.contains(lower))
        } else {
            marker_code(maze, upper.x, upper.y)
        }
    }
}

/// What the ball adds at column `col` of scan line `row`: a white pixel in
/// the half of the panel where the ball is, in the ball's column and line.
pub open spec fn ball_glyph(ball: &Ball, row: u8, col: int) -> u8 {
    if ball.x / PWM_FREQUENCY == col && ball.y / PWM_FREQUENCY == row {
        BALL_UPPER
    } else if ball.x / PWM_FREQUENCY == col && ball.y / PWM_FREQUENCY == row + SCAN_ROWS {
        BALL_LOWER
    } else {
        0
    }
}

/// The code at column `col` of scan line `row`.
pub open spec fn pixel(maze: &Maze, ball: &Ball, row: u8, col: int) -> u8 {
    maze_pixel(maze, row, col) | ball_glyph(ball, row, col)
}

proof fn lemma_or_nothing(code: u8)
    by (bit_vector)
    ensures
        code | 0u8 == code,
{
}

fn wall_code_of(upper: bool, lower: bool) -> (r: u8)
    ensures
        r == wall_code(upper, lower),
{
    if upper {
        if lower {
            0b100100
        } else {
            WALL_UPPER
        }
    } else {
        if lower {
            WALL_LOWER
        } else {
            0
        }
    }
}

fn corner_lit_at(maze: &Maze, p: Point) -> (r: bool)
    requires
        p.in_grid(),
    ensures
        r == corner_lit(maze, p),
{
    if maze.bitmap_top.get(p) || maze.bitmap_left.get(p) {
        return true;
    }
    if p.x > 0 && maze.bitmap_top.get(Point { x: p.x - 1, y: p.y }) {
        return true;
    }
    p.y > 0 && maze.bitmap_left.get(Point { x: p.x, y: p.y - 1 })
}

fn half_mark_of(maze: &Maze, cell: Point, start: u8, end: u8) -> (r: u8)
    ensures
        r == half_mark(maze, cell, start, end),
{
    if maze.start.x == cell.x && maze.start.y == cell.y {
        start
    } else if maze.end.x == cell.x && maze.end.y == cell.y {
        end
    } else {
        0
    }
}

fn marker_code_of(maze: &Maze, column: u8, maze_row: u8) -> (r: u8)
    requires
        maze_row < HALF_ROWS,
    ensures
        r == marker_code(maze, column, maze_row),
{
    let upper: u8 = half_mark_of(maze, Point { x: column, y: maze_row }, START_UPPER, END_UPPER);
    let lower: u8 = half_mark_of(
        maze,
        Point { x: column, y: maze_row + HALF_ROWS },
        START_LOWER,
        END_LOWER,
    );
    upper | lower
}

/// The codes of scan line `row`, one for each column from left to right.
/// Lines whose number is a multiple of four show the walls above a row of
/// cells and the corners; the three lines after each show the walls to the
/// left of the cells and, on the floor, the start and end marks. The ball is
/// laid over the line it is on; a ball below the panel is on no line.
pub fn draw_row(maze: &Maze, ball: &Ball, row: u8) -> (buf: [u8; PANEL_COLUMNS])
    requires
        row < SCAN_ROWS,
        ball.x < PANEL_WIDTH,
    ensures
        forall|col: int| 0 <= col < PANEL_COLUMNS ==> buf[col] == pixel(maze, ball, row, col),
{
    let maze_row: u8 = row / 4;
    let mut buf: [u8; PANEL_COLUMNS] = [0u8; PANEL_COLUMNS];
    let mut col: u8 = 0;
    while col < 32
        invariant
            col <= 32,
            row < SCAN_ROWS,
            maze_row == row / 4,
            forall|k: int| 0 <= k < 4 * col ==> buf[k] == maze_pixel(maze, row, k),
        decreases 32 - col,
    {
        let upper = Point { x: col, y: maze_row };
        let lower = Point { x: col, y: maze_row + HALF_ROWS };
        let first: u8;
        let rest: u8;
        if row % 4 == 0 {
            first = wall_code_of(corner_lit_at(maze, upper), corner_lit_at(maze, lower));
            rest = wall_code_of(maze.bitmap_top.get(upper), maze.bitmap_top.get(lower));
        } else {
            first = wall_code_of(maze.bitmap_left.get(upper), maze.bitmap_left.get(lower));
            rest = marker_code_of(maze, col, maze_row);
        }
        let at: usize = col as usize * 4;
        buf[at] = first;
        buf[at + 1] = rest;
        buf[at + 2] = rest;
        buf[at + 3] = rest;
        col += 1;
    }
    let ghost drawn = buf;
    let ball_screen_x: usize = (ball.x / PWM_FREQUENCY) as usize;
    let ball_screen_y: u16 = ball.y / PWM_FREQUENCY;
    if ball_screen_y == row as u16 {
        buf[ball_screen_x] = buf[ball_screen_x] | BALL_UPPER;
    }
    if ball_screen_y == row as u16 + SCAN_ROWS as u16 {
        buf[ball_screen_x] = buf[ball_screen_x] | BALL_LOWER;
    }
    proof {
        assert forall|k: int| 0 <= k < PANEL_COLUMNS implies buf[k] == pixel(
            maze,
            ball,
            row,
            k,
        ) by {
            assert(drawn[k] == maze_pixel(maze, row, k));
            lemma_or_nothing(drawn[k]);
        }
    }
    buf
}

proof fn lemma_mark_bits(upper: u8, lower: u8)
    by (bit_vector)
    requires
        upper == 0 || upper == 0b001000 || upper == 0b010000,
        lower == 0 || lower == 0b000001 || lower == 0b000010,
    ensures
        (upper | lower) & 0b001000 != 0 <==> upper == 0b001000,
        (upper | lower) & 0b010000 != 0 <==> upper == 0b010000,
        (upper | lower) & 0b000001 != 0 <==> lower == 0b000001,
        (upper | lower) & 0b000010 != 0 <==> lower == 0b000010,
        (upper | lower) & 0b100100 == 0,
        ((upper | lower) | 0) & 0b011011 == 0 <==> (upper == 0 && lower == 0),
{
}

proof fn lemma_wall_bits(code: u8)
    by (bit_vector)
    requires
        code == 0 || code == 0b100000 || code == 0b000100 || code == 0b100100,
    ensures
        (code | 0) & 0b011011 == 0,
{
}

/// In a maze with every wall standing each corner is lit in both halves.
pub proof fn lemma_walled_corners_lit(maze: &Maze, row: u8, col: int)
    requires
        maze.bitmap_top@ == crate::maze::BitMap::all_cells(),
        maze.bitmap_left@ == crate::maze::BitMap::all_cells(),
        row < SCAN_ROWS,
        0 <= col < PANEL_COLUMNS,
        row % 4 == 0,
        col % 4 == 0,
    ensures
        maze_pixel(maze, row, col) == wall_code(true, true),
{
    let upper = Point { x: (col / 4) as u8, y: row / 4 };
    let lower = Point { x: upper.x, y: (upper.y + HALF_ROWS) as u8 };
    assert(maze.bitmap_top@.contains(upper));
    assert(maze.bitmap_top@.contains(lower));
}

/// On the floor of a cell the code holds marks and nothing else, and each
/// mark appears in the column and the maze row of the cell it stands for
/// and nowhere else: the start's where the round starts, the end's where it
/// ends unless the round starts there too.
pub proof fn lemma_marks_stay_home(maze: &Maze, row: u8, col: int)
    requires
        row < SCAN_ROWS,
        0 <= col < PANEL_COLUMNS,
        row % 4 != 0,
        col % 4 != 0,
    ensures
        ({
            let code = maze_pixel(maze, row, col);
            let here = Point { x: (col / 4) as u8, y: row / 4 };
            let below = Point { x: here.x, y: (here.y + HALF_ROWS) as u8 };
            &&& code & START_UPPER != 0 <==> maze.start == here
            &&& code & START_LOWER != 0 <==> maze.start == below
            &&& code & END_UPPER != 0 <==> maze.end == here && maze.start != here
            &&& code & END_LOWER != 0 <==> maze.end == below && maze.start != below
            &&& code & WALL_BITS == 0
        }),
{
    let here = Point { x: (col / 4) as u8, y: row / 4 };
    let below = Point { x: here.x, y: (here.y + HALF_ROWS) as u8 };
    lemma_mark_bits(
        half_mark(maze, here, START_UPPER, END_UPPER),
        half_mark(maze, below, START_LOWER, END_LOWER),
    );
}

/// A line that the ball is not on carries no mark where it shows walls,
/// nor where neither the start nor the end is in one of its two maze rows.
pub proof fn lemma_no_marks_elsewhere(maze: &Maze, ball: &Ball, row: u8, col: int)
    requires
        row < SCAN_ROWS,
        0 <= col < PANEL_COLUMNS,
        ball.y / PWM_FREQUENCY != row,
        ball.y / PWM_FREQUENCY != row + SCAN_ROWS,
        row % 4 == 0 || (maze.start.y != row / 4 && maze.start.y != row / 4 + HALF_ROWS
            && maze.end.y != row / 4 && maze.end.y != row / 4 + HALF_ROWS),
    ensures
        pixel(maze, ball, row, col) & MARK_BITS == 0,
{
    let here = Point { x: (col / 4) as u8, y: row / 4 };
    let below = Point { x: here.x, y: (here.y + HALF_ROWS) as u8 };
    if row % 4 == 0 || col % 4 == 0 {
        lemma_wall_bits(maze_pixel(maze, row, col));
    } else {
        lemma_mark_bits(
            half_mark(maze, here, START_UPPER, END_UPPER),
            half_mark(maze, below, START_LOWER, END_LOWER),
        );
    }
}

} // verus!
