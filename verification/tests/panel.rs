use led_maze::ball::Ball;
use led_maze::display::{
    draw_row, BALL_LOWER, BALL_UPPER, END_LOWER, END_UPPER, PANEL_COLUMNS, SCAN_ROWS,
    START_LOWER, START_UPPER, WALL_LOWER, WALL_UPPER,
};
use led_maze::generator::MazeGenerator;
use led_maze::hub::{pixel_levels, HalfLevels, PixelLevels};
use led_maze::maze::{Direction, Maze, Point, HEIGHT, WIDTH};

fn at(x: u16, y: u16) -> Ball {
    led_maze::ball::Point { x, y }
}

fn bare() -> Maze {
    let mut maze = Maze::new();
    for y in 0..HEIGHT {
        for x in 0..WIDTH {
            maze.break_wall(Point { x, y }, Direction::Top);
            maze.break_wall(Point { x, y }, Direction::Left);
        }
    }
    maze
}

/// A ball in the last pixel of the panel, which the last scan line shows
/// in the lower half.
fn aside() -> Ball {
    at(1023, 511)
}

/// What the ball in the last pixel adds to a code.
fn aside_at(row: u8, col: usize) -> u8 {
    if row == 31 && col == 127 {
        BALL_LOWER
    } else {
        0
    }
}

#[test]
fn codes_are_what_the_panel_expects() {
    assert_eq!(WALL_UPPER, 0b100000);
    assert_eq!(WALL_LOWER, 0b000100);
    assert_eq!(START_UPPER, 0b001000);
    assert_eq!(START_LOWER, 0b000001);
    assert_eq!(END_UPPER, 0b010000);
    assert_eq!(END_LOWER, 0b000010);
    assert_eq!(BALL_UPPER, 0b111000);
    assert_eq!(BALL_LOWER, 0b000111);
    assert_eq!(PANEL_COLUMNS, 128);
    assert_eq!(SCAN_ROWS, 32);
}

#[test]
fn top_line_of_a_walled_maze_is_lit_throughout() {
    let maze = Maze::new();
    let ball = Ball::new();
    let line = draw_row(&maze, &ball, 0);
    assert_eq!(line.len(), 128);
    for (col, code) in line.iter().enumerate() {
        if col % 4 == 0 {
            // every corner dot is lit in both halves
            assert_eq!(code & (WALL_UPPER | WALL_LOWER), WALL_UPPER | WALL_LOWER);
        }
        if col == 0 {
            assert_eq!(*code, 0b111100);
        } else {
            assert_eq!(*code, 0b100100);
        }
    }
}

#[test]
fn marks_appear_in_the_rows_of_their_cells_only() {
    let maze = Maze::new();
    let ball = Ball::new();
    for row in 0..SCAN_ROWS {
        let line = draw_row(&maze, &ball, row);
        for (col, code) in line.iter().enumerate() {
            let mut expected = if row % 4 == 0 || col % 4 == 0 {
                WALL_UPPER | WALL_LOWER
            } else if row < 4 && col < 4 {
                // start and end are both in the first cell: the start shows
                START_UPPER
            } else {
                0
            };
            if row == 0 && col == 0 {
                expected |= BALL_UPPER;
            }
            assert_eq!(*code, expected, "row {} col {}", row, col);
        }
    }
}

#[test]
fn start_and_end_are_marked_in_their_half() {
    let mut maze = bare();
    maze.start = Point { x: 2, y: 3 };
    maze.end = Point { x: 30, y: 12 };
    for row in 0..SCAN_ROWS {
        let line = draw_row(&maze, &aside(), row);
        for (col, code) in line.iter().enumerate() {
            let floor = row % 4 != 0 && col % 4 != 0;
            let expected = if floor && row / 4 == 3 && col / 4 == 2 {
                START_UPPER
            } else if floor && row / 4 == 4 && col / 4 == 30 {
                END_LOWER
            } else {
                0
            };
            assert_eq!(*code, expected | aside_at(row, col), "row {} col {}", row, col);
        }
    }
    maze.start = Point { x: 31, y: 15 };
    maze.end = Point { x: 0, y: 0 };
    let line = draw_row(&maze, &at(0, 0), 29);
    assert_eq!(line[125], START_LOWER);
    assert_eq!(line[126], START_LOWER);
    assert_eq!(line[127], START_LOWER);
    assert_eq!(line[124], 0);
    assert_eq!(line[1], 0);
    let line = draw_row(&maze, &aside(), 1);
    assert_eq!(line[1], END_UPPER);
    assert_eq!(line[2], END_UPPER);
    assert_eq!(line[3], END_UPPER);
    assert_eq!(line[0], 0);
    assert_eq!(line[4], 0);
}

#[test]
fn each_half_shows_its_own_mark() {
    let mut maze = bare();
    maze.start = Point { x: 5, y: 2 };
    maze.end = Point { x: 5, y: 10 };
    let line = draw_row(&maze, &aside(), 9);
    assert_eq!(line[21], START_UPPER | END_LOWER);
    assert_eq!(line[22], START_UPPER | END_LOWER);
    assert_eq!(line[20], 0);
    maze.start = Point { x: 5, y: 10 };
    maze.end = Point { x: 5, y: 2 };
    let line = draw_row(&maze, &aside(), 9);
    assert_eq!(line[21], START_LOWER | END_UPPER);
    maze.start = Point { x: 6, y: 10 };
    let line = draw_row(&maze, &aside(), 9);
    assert_eq!(line[21], END_UPPER);
    assert_eq!(line[25], START_LOWER);
}

#[test]
fn the_start_hides_an_end_in_the_same_cell() {
    let mut maze = bare();
    maze.start = Point { x: 5, y: 2 };
    maze.end = Point { x: 5, y: 2 };
    assert_eq!(draw_row(&maze, &aside(), 9)[21], START_UPPER);
    maze.start = Point { x: 5, y: 10 };
    maze.end = Point { x: 5, y: 10 };
    assert_eq!(draw_row(&maze, &aside(), 9)[21], START_LOWER);
}

#[test]
fn a_single_wall_lights_its_line_and_the_corners_it_touches() {
    let mut maze = bare();
    maze.bitmap_top.set(Point { x: 3, y: 2 }, true);
    let line = draw_row(&maze, &aside(), 8);
    for (col, code) in line.iter().enumerate() {
        // the wall's own four pixels and the corner of the cell to its right
        let expected = if (12..=16).contains(&col) { WALL_UPPER } else { 0 };
        assert_eq!(*code, expected, "col {}", col);
    }
    for row in [7u8, 9] {
        assert!(draw_row(&maze, &aside(), row).iter().all(|code| *code == 0));
    }
    let mut maze = bare();
    maze.bitmap_left.set(Point { x: 3, y: 2 }, true);
    for row in 8..=12u8 {
        let line = draw_row(&maze, &aside(), row);
        for (col, code) in line.iter().enumerate() {
            // the wall's own column, and the corner below its lower end
            let expected = if col == 12 { WALL_UPPER } else { 0 };
            assert_eq!(*code, expected, "row {} col {}", row, col);
        }
    }
    assert!(draw_row(&maze, &aside(), 13).iter().all(|code| *code == 0));
    assert!(draw_row(&maze, &aside(), 7).iter().all(|code| *code == 0));
}

#[test]
fn walls_of_the_lower_half_light_the_lower_colours() {
    let mut maze = bare();
    maze.bitmap_top.set(Point { x: 0, y: 8 }, true);
    maze.bitmap_left.set(Point { x: 31, y: 15 }, true);
    let line = draw_row(&maze, &aside(), 0);
    assert_eq!(&line[0..5], &[WALL_LOWER; 5]);
    assert!(line[5..].iter().all(|code| *code == 0));
    let line = draw_row(&maze, &aside(), 30);
    assert_eq!(line[124], WALL_LOWER);
    assert_eq!(line.iter().filter(|code| **code != 0).count(), 1);
}

#[test]
fn a_corner_is_lit_by_the_wall_that_ends_above_it() {
    let mut maze = bare();
    maze.bitmap_left.set(Point { x: 3, y: 7 }, true);
    // the wall ends where the lower half begins: its lower corner is on
    // the first line of the lower half
    let line = draw_row(&maze, &aside(), 0);
    for (col, code) in line.iter().enumerate() {
        assert_eq!(*code, if col == 12 { WALL_LOWER } else { 0 }, "col {}", col);
    }
    let line = draw_row(&maze, &aside(), 28);
    assert_eq!(line[12], WALL_UPPER);
    maze.bitmap_left.set(Point { x: 3, y: 6 }, true);
    let line = draw_row(&maze, &aside(), 28);
    assert_eq!(line[12], WALL_UPPER);
    let line = draw_row(&maze, &aside(), 24);
    assert_eq!(line[12], WALL_UPPER);
    // nothing is above the first line of the upper half
    let mut maze = bare();
    maze.bitmap_left.set(Point { x: 3, y: 15 }, true);
    assert!(draw_row(&maze, &aside(), 0).iter().all(|code| *code == 0));
}

#[test]
fn a_ball_below_the_panel_is_on_no_line() {
    let maze = bare();
    for y in [512u16, 520, 2048, 2056, 8 * 256, 8 * 288 + 3, 65535] {
        let ball = at(8 * 10, y);
        for row in 0..SCAN_ROWS {
            let line = draw_row(&maze, &ball, row);
            for (col, code) in line.iter().enumerate() {
                let floor = row % 4 != 0 && col % 4 != 0;
                let mark = if row < 4 && col < 4 && floor { START_UPPER } else { 0 };
                assert_eq!(*code, mark, "y {} row {} col {}", y, row, col);
            }
        }
    }
    let line = draw_row(&maze, &at(1023, 65535), 31);
    assert!(line.iter().all(|code| *code == 0));
}

#[test]
fn the_ball_is_white_in_its_half() {
    let maze = bare();
    let ball = at(8 * 17 + 3, 8 * 5 + 7);
    for row in 0..SCAN_ROWS {
        let line = draw_row(&maze, &ball, row);
        for (col, code) in line.iter().enumerate() {
            let floor = row % 4 != 0 && col % 4 != 0;
            let mark = if row < 4 && col < 4 && floor { START_UPPER } else { 0 };
            let expected = if row == 5 && col == 17 { BALL_UPPER } else { mark };
            assert_eq!(*code, expected, "row {} col {}", row, col);
        }
    }
    let ball = at(8 * 127, 8 * 63);
    let line = draw_row(&maze, &ball, 31);
    assert_eq!(line[127], BALL_LOWER);
    assert_eq!(line.iter().filter(|code| **code != 0).count(), 1);
    let ball = at(8 * 40, 8 * 32);
    assert_eq!(draw_row(&maze, &ball, 0)[40], BALL_LOWER);
    let ball = at(8 * 40 + 7, 8 * 31 + 7);
    assert_eq!(draw_row(&maze, &ball, 31)[40], BALL_UPPER);
    assert_eq!(draw_row(&maze, &ball, 0)[40], 0);
}

#[test]
fn the_ball_is_laid_over_what_is_under_it() {
    let mut maze = Maze::new();
    maze.start = Point { x: 9, y: 9 };
    maze.end = Point { x: 1, y: 1 };
    let line = draw_row(&maze, &at(8 * 4, 8 * 4), 4);
    assert_eq!(line[4], WALL_UPPER | WALL_LOWER | BALL_UPPER);
    let line = draw_row(&maze, &at(8 * 5, 8 * 37), 5);
    assert_eq!(line[5], BALL_LOWER | END_UPPER);
    assert_eq!(line[6], END_UPPER);
    let line = draw_row(&maze, &at(8 * 5, 8 * 5), 5);
    assert_eq!(line[5], BALL_UPPER);
}

#[test]
fn a_generated_maze_is_drawn_wall_by_wall() {
    let mut maze = Maze::new();
    MazeGenerator::new().generate(&mut maze);
    maze.end = Point { x: 31, y: 15 };
    for row in 0..SCAN_ROWS {
        let line = draw_row(&maze, &aside(), row);
        let mr = row / 4;
        for (col, code) in line.iter().enumerate() {
            let mc = (col / 4) as u8;
            let upper = Point { x: mc, y: mr };
            let lower = Point { x: mc, y: mr + 8 };
            if row % 4 == 0 && col % 4 != 0 {
                assert_eq!(code & WALL_UPPER != 0, maze.bitmap_top.get(upper));
                assert_eq!(code & WALL_LOWER != 0, maze.bitmap_top.get(lower));
                assert_eq!(code & !(WALL_UPPER | WALL_LOWER), 0);
            } else if row % 4 != 0 && col % 4 == 0 {
                assert_eq!(code & WALL_UPPER != 0, maze.bitmap_left.get(upper));
                assert_eq!(code & WALL_LOWER != 0, maze.bitmap_left.get(lower));
                assert_eq!(code & !(WALL_UPPER | WALL_LOWER), 0);
            } else if row % 4 == 0 {
                if maze.bitmap_top.get(upper) || maze.bitmap_left.get(upper) {
                    assert!(code & WALL_UPPER != 0);
                }
                if maze.bitmap_top.get(lower) || maze.bitmap_left.get(lower) {
                    assert!(code & WALL_LOWER != 0);
                }
            } else {
                let above = if maze.start == upper { START_UPPER } else { 0 };
                let below = if maze.start == lower {
                    START_LOWER
                } else if maze.end == lower {
                    END_LOWER
                } else {
                    0
                };
                let expected = above | below;
                assert_eq!(*code, expected | aside_at(row, col));
            }
        }
    }
}

#[test]
fn a_code_drives_six_lines() {
    let off = HalfLevels { r: false, g: false, b: false };
    let on = HalfLevels { r: true, g: true, b: true };
    assert_eq!(pixel_levels(0), PixelLevels { upper: off, lower: off });
    assert_eq!(pixel_levels(0b111111), PixelLevels { upper: on, lower: on });
    assert_eq!(pixel_levels(BALL_UPPER), PixelLevels { upper: on, lower: off });
    assert_eq!(pixel_levels(BALL_LOWER), PixelLevels { upper: off, lower: on });
    assert_eq!(
        pixel_levels(WALL_UPPER),
        PixelLevels { upper: HalfLevels { r: true, g: false, b: false }, lower: off }
    );
    assert_eq!(
        pixel_levels(END_UPPER),
        PixelLevels { upper: HalfLevels { r: false, g: true, b: false }, lower: off }
    );
    assert_eq!(
        pixel_levels(START_UPPER),
        PixelLevels { upper: HalfLevels { r: false, g: false, b: true }, lower: off }
    );
    assert_eq!(
        pixel_levels(WALL_LOWER),
        PixelLevels { upper: off, lower: HalfLevels { r: true, g: false, b: false } }
    );
    assert_eq!(
        pixel_levels(END_LOWER),
        PixelLevels { upper: off, lower: HalfLevels { r: false, g: true, b: false } }
    );
    assert_eq!(
        pixel_levels(START_LOWER),
        PixelLevels { upper: off, lower: HalfLevels { r: false, g: false, b: true } }
    );
    // the two highest bits drive nothing
    assert_eq!(pixel_levels(0b11000000), PixelLevels { upper: off, lower: off });
    assert_eq!(pixel_levels(0b11100100), pixel_levels(0b100100));
}
