//! The panel area of one maze cell, against which the ball is held.

use vstd::prelude::*;
use crate::ball::{CELL_PITCH, PWM_FREQUENCY};

verus! {

/// Position units across the open floor of a cell.
pub const CELL_SIDE: u16 = 24;

/// Width and height of an area of the panel.
#[derive(Debug, PartialEq, Eq, Structural)]
pub struct Size {
    width: u16,
    height: u16,
}

/// A rectangle of the panel: the open floor of one maze cell.
#[derive(Debug, PartialEq, Eq, Structural)]
pub struct Cell {
    pub(crate) position: crate::ball::Point,
    size: Size,
}

impl Cell {
    #[verifier::type_invariant]
    spec fn fits(self) -> bool {
        &&& self.size.width >= 1
        &&& self.size.height >= 1
        &&& self.position.x + self.size.width <= 0x1_0000
        &&& self.position.y + self.size.height <= 0x1_0000
    }

    /// The leftmost position of the area.
    pub closed spec fn left(self) -> int {
        self.position.x as int
    }

    /// The topmost position of the area.
    pub closed spec fn top(self) -> int {
        self.position.y as int
    }

    /// Positions across the area.
    pub closed spec fn width(self) -> int {
        self.size.width as int
    }

    /// Positions down the area.
    pub closed spec fn height(self) -> int {
        self.size.height as int
    }

    /// The position lies inside the area.
    pub open spec fn holds(self, point: crate::ball::Point) -> bool {
        &&& self.left() <= point.x < self.left() + self.width()
        &&& self.top() <= point.y < self.top() + self.height()
    }

    /// The middle of the area.
    pub open spec fn middle(self) -> crate::ball::Point {
        crate::ball::Point {
            x: (self.left() + self.width() / 2) as u16,
            y: (self.top() + self.height() / 2) as u16,
        }
    }

    /// Column of the maze cell that the area belongs to.
    pub open spec fn column(self) -> int {
        self.left() / (CELL_PITCH as int)
    }

    /// Row of the maze cell that the area belongs to.
    pub open spec fn row(self) -> int {
        self.top() / (CELL_PITCH as int)
    }

    /// The area is the floor of a cell of the grid, as `of_ball_point` lays
    /// it out.
    pub open spec fn is_floor_of(self, column: int, row: int) -> bool {
        &&& self.left() == CELL_PITCH * column + PWM_FREQUENCY
        &&& self.top() == CELL_PITCH * row + PWM_FREQUENCY
        &&& self.width() == CELL_SIDE
        &&& self.height() == CELL_SIDE
    }

    /// The floor of the given maze cell.
    pub closed spec fn floor_of(point: crate::maze::Point) -> Cell {
        Cell {
            position: crate::ball::Point {
                x: (point.x * CELL_PITCH + PWM_FREQUENCY) as u16,
                y: (point.y * CELL_PITCH + PWM_FREQUENCY) as u16,
            },
            size: Size { width: CELL_SIDE, height: CELL_SIDE },
        }
    }

    /// The floor of a maze cell holds its own middle, and it holds the
    /// position at which a ball rests in the cell.
    pub proof fn lemma_holds_its_middle(point: crate::maze::Point)
        ensures
            Self::floor_of(point).holds(Self::floor_of(point).middle()),
            Self::floor_of(point).holds(crate::ball::Point::resting_in(point)),
    {
    }

    /// Every position has one floor: the floor of the maze cell whose
    /// panel area holds it. Positions in the area of one maze cell have the
    /// same floor.
    pub proof fn lemma_one_floor(point: crate::ball::Point, cell: crate::maze::Point)
        requires
            point.x / CELL_PITCH == cell.x,
            point.y / CELL_PITCH == cell.y,
        ensures
            Self::floor_at(point) == Self::floor_of(cell),
    {
    }

    /// Two positions whose columns and rows of maze cells are the same have
    /// the same floor.
    pub proof fn lemma_same_floor(a: crate::ball::Point, b: crate::ball::Point)
        requires
            a.x / CELL_PITCH == b.x / CELL_PITCH,
            a.y / CELL_PITCH == b.y / CELL_PITCH,
        ensures
            Self::floor_at(a) == Self::floor_at(b),
    {
    }

    /// A position one step outside an area, to its left or right, above or
    /// below it, is not inside it.
    pub proof fn lemma_one_step_outside(self, point: crate::ball::Point)
        requires
            point.x == self.left() - 1 || point.x == self.left() + self.width() || point.y
                == self.top() - 1 || point.y == self.top() + self.height(),
        ensures
            !self.holds(point),
    {
    }

    /// The floor of the maze cell whose panel area holds the position.
    pub closed spec fn floor_at(point: crate::ball::Point) -> Cell {
        Cell {
            position: crate::ball::Point {
                x: ((point.x / CELL_PITCH) * CELL_PITCH + PWM_FREQUENCY) as u16,
                y: ((point.y / CELL_PITCH) * CELL_PITCH + PWM_FREQUENCY) as u16,
            },
            size: Size { width: CELL_SIDE, height: CELL_SIDE },
        }
    }

    /// The column inside the area that is nearest to `x`.
    pub open spec fn bounded_x(self, x: u16) -> int {
        if x < self.left() {
            self.left()
        } else if x > self.left() + self.width() - 1 {
            self.left() + self.width() - 1
        } else {
            x as int
        }
    }

    /// The row inside the area that is nearest to `y`.
    pub open spec fn bounded_y(self, y: u16) -> int {
        if y < self.top() {
            self.top()
        } else if y > self.top() + self.height() - 1 {
            self.top() + self.height() - 1
        } else {
            y as int
        }
    }

    /// The floor of a maze cell starts one wall strip into the cell's area
    /// and fills the rest of it.
    pub proof fn lemma_floor_layout(point: crate::ball::Point)
        ensures
            Self::floor_at(point).is_floor_of(
                point.x as int / CELL_PITCH as int,
                point.y as int / CELL_PITCH as int,
            ),
            Self::floor_at(point).column() == point.x / CELL_PITCH,
            Self::floor_at(point).row() == point.y / CELL_PITCH,
    {
    }

    /// The area belongs to a cell of the grid.
    pub open spec fn on_grid(self) -> bool {
        self.column() < crate::maze::WIDTH && self.row() < crate::maze::HEIGHT
    }

    /// The address of the maze cell that the area belongs to.
    pub open spec fn address(self) -> crate::maze::Point {
        crate::maze::Point { x: self.column() as u8, y: self.row() as u8 }
    }

    /// Column of the maze cell that the area belongs to.
    pub fn grid_column(&self) -> (r: u16)
        ensures
            r == self.column(),
    {
        self.position.x / CELL_PITCH
    }

    /// Row of the maze cell that the area belongs to.
    pub fn grid_row(&self) -> (r: u16)
        ensures
            r == self.row(),
    {
        self.position.y / CELL_PITCH
    }

    /// Whether the position lies inside the area.
    pub fn contains(&self, point: &crate::ball::Point) -> (r: bool)
        ensures
            r == self.holds(*point),
    {
        proof {
            use_type_invariant(self);
        }
        if point.x < self.position.x || point.y < self.position.y {
            return false;
        }
        if point.x - self.position.x >= self.size.width || point.y - self.position.y
            >= self.size.height {
            return false;
        }
        return true;
    }

    /// The floor of the given maze cell: the same area that
    /// `of_ball_point` gives for every position in the cell's panel area.
    pub fn of_point(point: &crate::maze::Point) -> (r: Cell)
        ensures
            r == Self::floor_of(*point),
            r == Self::floor_at(crate::ball::Point::resting_in(*point)),
            r.is_floor_of(point.x as int, point.y as int),
            r.column() == point.x,
            r.row() == point.y,
    {
        let freq: u16 = PWM_FREQUENCY * 4;
        Cell {
            position: crate::ball::Point {
                x: point.x as u16 * freq + PWM_FREQUENCY,
                y: point.y as u16 * freq + PWM_FREQUENCY,
            },
            size: Size { height: PWM_FREQUENCY * 3, width: PWM_FREQUENCY * 3 },
        }
    }

    /// The floor of the maze cell whose panel area holds the position. The
    /// wall strips along the top and the left of that area are outside it.
    pub fn of_ball_point(point: &crate::ball::Point) -> (r: Cell)
        ensures
            r == Self::floor_at(*point),
            r.is_floor_of(point.x as int / CELL_PITCH as int, point.y as int / CELL_PITCH as int),
            r.column() == point.x / CELL_PITCH,
            r.row() == point.y / CELL_PITCH,
    {
        let freq: u16 = PWM_FREQUENCY * 4;
        Cell {
            position: crate::ball::Point {
                x: (point.x / freq) * freq + PWM_FREQUENCY,
                y: (point.y / freq) * freq + PWM_FREQUENCY,
            },
            size: Size { height: PWM_FREQUENCY * 3, width: PWM_FREQUENCY * 3 },
        }
    }

    /// The middle of the area.
    pub fn center(&self) -> (r: crate::ball::Point)
        ensures
            r == self.middle(),
            self.holds(r),
    {
        proof {
            use_type_invariant(self);
        }
        crate::ball::Point {
            x: self.position.x + self.size.width / 2,
            y: self.position.y + self.size.height / 2,
        }
    }

    /// Moves the position along x to the nearest one inside the area's
    /// columns; `y` is left alone.
    pub fn bound_x(&self, point: &mut crate::ball::Point)
        ensures
            final(point).y == old(point).y,
            final(point).x == self.bounded_x(old(point).x),
    {
        proof {
            use_type_invariant(self);
        }
        if point.x < self.position.x {
            point.x = self.position.x;
        } else if point.x - self.position.x > self.size.width - 1 {
            point.x = self.position.x + (self.size.width - 1);
        }
    }

    /// Moves the position along y to the nearest one inside the area's
    /// rows; `x` is left alone.
    pub fn bound_y(&self, point: &mut crate::ball::Point)
        ensures
            final(point).x == old(point).x,
            final(point).y == self.bounded_y(old(point).y),
    {
        proof {
            use_type_invariant(self);
        }
        if point.y < self.position.y {
            point.y = self.position.y;
        } else if point.y - self.position.y > self.size.height - 1 {
            point.y = self.position.y + (self.size.height - 1);
        }
    }
}

} // verus!
