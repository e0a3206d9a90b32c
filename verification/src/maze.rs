//! Cell addresses, wall grids and the maze built from two of them.

use vstd::prelude::*;
use crate::cell::Cell;

verus! {

/// Number of cells in one row of the maze.
pub const WIDTH: u8 = 32;

/// Number of rows of cells in the maze.
pub const HEIGHT: u8 = 16;

/// Bytes that store one row of a wall grid, eight cells to a byte.
pub const ROW_BYTES: usize = 4;

/// Rows stored by a wall grid.
pub const ROWS: usize = 16;

/// Cells in a row, as the length of an array.
pub const COLUMNS: usize = 32;

/// The four sides of a cell.
#[derive(Clone, Copy, Debug, PartialEq, Eq, Structural)]
pub enum Direction {
    Left,
    Right,
    Top,
    Bottom,
}

/// The address of a maze cell: column `x`, row `y`.
#[derive(Clone, Copy, Debug, PartialEq, Eq, Structural)]
pub struct Point {
    pub x: u8,
    pub y: u8,
}

impl Point {
    /// The address names a cell of the grid.
    pub open spec fn in_grid(self) -> bool {
        self.x < WIDTH && self.y < HEIGHT
    }

    /// The cell on the given side exists in the grid.
    pub open spec fn has_neighbor(self, direction: Direction) -> bool {
        &&& self.in_grid()
        &&& match direction {
            Direction::Left => self.x > 0,
            Direction::Right => self.x + 1 < WIDTH,
            Direction::Top => self.y > 0,
            Direction::Bottom => self.y + 1 < HEIGHT,
        }
    }

    /// The address one step away on the given side.
    pub open spec fn step(self, direction: Direction) -> Point {
        match direction {
            Direction::Left => Point { x: (self.x - 1) as u8, y: self.y },
            Direction::Right => Point { x: (self.x + 1) as u8, y: self.y },
            Direction::Top => Point { x: self.x, y: (self.y - 1) as u8 },
            Direction::Bottom => Point { x: self.x, y: (self.y + 1) as u8 },
        }
    }

    /// Whether the address names a cell of the grid.
    pub fn is_in_grid(&self) -> (r: bool)
        ensures
            r == self.in_grid(),
    {
        self.x < WIDTH && self.y < HEIGHT
    }

    /// The neighbor on the given side; it exists only away from that edge of
    /// the grid.
    pub fn dir(&self, direction: Direction) -> (r: Point)
        requires
            self.has_neighbor(direction),
        ensures
            r == self.step(direction),
            r.in_grid(),
    {
        match direction {
            Direction::Right => self.right(),
            Direction::Left => self.left(),
            Direction::Top => self.top(),
            Direction::Bottom => self.bottom(),
        }
    }

    /// The neighbor to the right.
    pub fn right(&self) -> (r: Point)
        requires
            self.has_neighbor(Direction::Right),
        ensures
            r == self.step(Direction::Right),
            r.x == self.x + 1,
            r.y == self.y,
    {
        Point { x: self.x + 1, y: self.y }
    }

    /// The neighbor to the left.
    pub fn left(&self) -> (r: Point)
        requires
            self.has_neighbor(Direction::Left),
        ensures
            r == self.step(Direction::Left),
            r.x == self.x - 1,
            r.y == self.y,
    {
        Point { x: self.x - 1, y: self.y }
    }

    /// The neighbor above.
    pub fn top(&self) -> (r: Point)
        requires
            self.has_neighbor(Direction::Top),
        ensures
            r == self.step(Direction::Top),
            r.x == self.x,
            r.y == self.y - 1,
    {
        Point { x: self.x, y: self.y - 1 }
    }

    /// The neighbor below.
    pub fn bottom(&self) -> (r: Point)
        requires
            self.has_neighbor(Direction::Bottom),
        ensures
            r == self.step(Direction::Bottom),
            r.x == self.x,
            r.y == self.y + 1,
    {
        Point { x: self.x, y: self.y + 1 }
    }
}

/// Bit `i` of `byte`.
pub open spec fn bit_of(byte: u8, i: u8) -> bool {
    (byte >> i) & 1u8 == 1u8
}

/// One bit per cell of the grid, packed eight cells to a byte.
#[derive(Clone)]
pub struct BitMap {
    content: [[u8; ROW_BYTES]; ROWS],
}

impl View for BitMap {
    type V = Set<Point>;

    /// The cells whose bit is set.
    closed spec fn view(&self) -> Set<Point> {
        Set::new(
            |p: Point|
                p.in_grid() && bit_of(self.content[p.y as int][(p.x >> 3u8) as int], p.x & 7u8),
        )
    }
}

proof fn lemma_byte_index(x: u8)
    by (bit_vector)
    requires
        x < 32,
    ensures
        x >> 3u8 < 4,
        x & 7u8 < 8,
{
}

proof fn lemma_bit_written(byte: u8, i: u8, j: u8)
    by (bit_vector)
    requires
        i < 8,
        j < 8,
    ensures
        bit_of(byte | (1u8 << i), j) == (j == i || bit_of(byte, j)),
        bit_of(byte & !(1u8 << i), j) == (j != i && bit_of(byte, j)),
{
}

proof fn lemma_bit_address(x: u8, z: u8)
    by (bit_vector)
    requires
        x >> 3u8 == z >> 3u8,
        x & 7u8 == z & 7u8,
    ensures
        x == z,
{
}

proof fn lemma_filled_byte(j: u8)
    by (bit_vector)
    requires
        j < 8,
    ensures
        bit_of(0xffu8, j),
        !bit_of(0u8, j),
{
}

/// The set bits of a grid after the bit of `location` has been written.
pub open spec fn written(bits: Set<Point>, location: Point, value: bool) -> Set<Point> {
    if value {
        bits.insert(location)
    } else {
        bits.remove(location)
    }
}

/// A bit that has been written reads back as written, whichever cell of
/// the grid it belongs to, and the bits of all other cells read as before.
pub proof fn lemma_write_then_read(bits: Set<Point>, location: Point, value: bool, other: Point)
    requires
        location.in_grid(),
    ensures
        written(bits, location, value).contains(location) == value,
        other != location ==> written(bits, location, value).contains(other) == bits.contains(
            other,
        ),
{
}

impl BitMap {
    /// The set of all cells of the grid.
    pub open spec fn all_cells() -> Set<Point> {
        Set::new(|p: Point| p.in_grid())
    }

    /// Only cells of the grid have a bit.
    pub proof fn lemma_within_grid(&self)
        ensures
            self@.subset_of(Self::all_cells()),
    {
    }

    /// A grid with every bit equal to `value`.
    pub fn new(value: bool) -> (r: BitMap)
        ensures
            r@ == if value { Self::all_cells() } else { Set::<Point>::empty() },
    {
        let value: u8 = if value { u8::MAX } else { 0 };
        let maze = BitMap { content: [[value; ROW_BYTES]; ROWS] };
        proof {
            assert forall|p: Point| p.in_grid() implies (maze@.contains(p) <==> value
                == u8::MAX) by {
                lemma_byte_index(p.x);
                lemma_filled_byte(p.x & 7u8);
            }
        }
        maze
    }

    /// The bit of one cell.
    pub fn get(&self, location: Point) -> (r: bool)
        requires
            location.in_grid(),
        ensures
            r == self@.contains(location),
    {
        let actual_index: u8 = location.x >> 3;
        let index_within_byte: u8 = location.x & 0b111;
        proof {
            lemma_byte_index(location.x);
        }
        let byte: u8 = self.content[location.y as usize][actual_index as usize];
        (byte >> index_within_byte) & 0b1 == 0b1
    }

    /// Writes the bit of one cell and leaves every other bit as it was.
    pub fn set(&mut self, location: Point, value: bool)
        requires
            location.in_grid(),
        ensures
            final(self)@ == written(old(self)@, location, value),
    {
        let actual_index: u8 = location.x >> 3;
        let index_within_byte: u8 = location.x & 0b111;
        proof {
            lemma_byte_index(location.x);
        }
        let val: u8 = 1 << index_within_byte;
        let byte: u8 = self.content[location.y as usize][actual_index as usize];
        self.content[location.y as usize][actual_index as usize] =
        if value {
            byte | val
        } else {
            byte & !val
        };
        proof {
            let wanted = written(old(self)@, location, value);
            assert forall|p: Point| self@.contains(p) == wanted.contains(p) by {
                if p.in_grid() {
                    lemma_byte_index(p.x);
                    if p.y == location.y && (p.x >> 3u8) == actual_index {
                        lemma_bit_written(byte, index_within_byte, p.x & 7u8);
                        if (p.x & 7u8) == index_within_byte {
                            lemma_bit_address(p.x, location.x);
                        }
                    }
                }
            }
        }
    }
}

proof fn lemma_split_column(x: u8)
    by (bit_vector)
    ensures
        x >> 3u8 == x / 8,
        x & 7u8 == x % 8,
{
}

proof fn lemma_shift_on(byte: u8, i: u8)
    by (bit_vector)
    requires
        i < 8,
    ensures
        (byte >> i) >> 1u8 == byte >> ((i + 1) as u8),
        byte >> 0u8 == byte,
{
}

/// A scan of one row of a grid, from the left.
#[derive(Clone, Copy)]
pub struct BitMapRowIterator<'a> {
    data: &'a [u8; ROW_BYTES],
    col: u8,
    buf: u8,
    counter: u8,
}

impl<'a> BitMapRowIterator<'a> {
    #[verifier::type_invariant]
    spec fn in_order(self) -> bool {
        &&& self.col <= ROW_BYTES
        &&& self.counter <= 7
        &&& self.col == 0 ==> self.counter == 0
        &&& self.counter > 0 ==> self.buf == self.data[self.col - 1] >> ((8 - self.counter) as u8)
    }

    /// How many cells the scan has given.
    pub closed spec fn position(self) -> int {
        8 * self.col - self.counter
    }

    /// The bits that the scan is still to give, the next one first.
    pub closed spec fn remaining(self) -> Seq<bool> {
        Seq::new(
            (WIDTH - self.position()) as nat,
            |i: int|
                bit_of(
                    self.data[(self.position() + i) / 8],
                    ((self.position() + i) % 8) as u8,
                ),
        )
    }

    /// The next bit of the row, or `None` when the scan has gone through
    /// the row.
    pub fn next(&mut self) -> (r: Option<bool>)
        ensures
            match r {
                Some(digit) => old(self).remaining().len() > 0 && digit == old(self).remaining()[0]
                    && final(self).remaining() == old(self).remaining().drop_first(),
                None => old(self).remaining().len() == 0 && *final(self) == *old(self),
            },
    {
        proof {
            use_type_invariant(&*self);
        }
        if self.col == WIDTH / 8 && self.counter == 0 {
            return None;
        }
        let mut col: u8 = self.col;
        let mut buf: u8 = self.buf;
        let mut counter: u8 = self.counter;
        if counter == 0 {
            counter = 8;
            buf = self.data[col as usize];
            col += 1;
        }
        counter -= 1;
        let digit: bool = buf & 0b1 == 1;
        proof {
            lemma_shift_on(self.data[col - 1], (7 - counter) as u8);
        }
        buf = buf >> 1;
        *self = BitMapRowIterator { data: self.data, col, buf, counter };
        Some(digit)
    }
}

/// A walk down the rows of a grid that gives a scan of each row, from the
/// top.
pub struct BitMapIterator<'a> {
    map: &'a BitMap,
    row: u8,
}

impl<'a> BitMapIterator<'a> {
    #[verifier::type_invariant]
    spec fn in_order(self) -> bool {
        self.row <= HEIGHT
    }

    /// The grid whose rows are given.
    pub closed spec fn grid(self) -> BitMap {
        *self.map
    }

    /// The row whose scan comes next; `HEIGHT` when none is left.
    pub closed spec fn upcoming(self) -> int {
        self.row as int
    }

    /// The scan of the next row, or `None` after the last row.
    pub fn next(&mut self) -> (r: Option<BitMapRowIterator<'a>>)
        ensures
            final(self).grid() == old(self).grid(),
            match r {
                Some(scan) => old(self).upcoming() < HEIGHT && final(self).upcoming() == old(
                    self,
                ).upcoming() + 1 && scan.remaining() == old(self).grid().scanned(
                    old(self).upcoming() as u8,
                ),
                None => old(self).upcoming() == HEIGHT && *final(self) == *old(self),
            },
    {
        proof {
            use_type_invariant(&*self);
        }
        if self.row >= HEIGHT {
            return None;
        }
        let row: u8 = self.row;
        *self = BitMapIterator { map: self.map, row: row + 1 };
        Some(self.map.row_iter(row))
    }
}

impl BitMap {
    /// What a scan of the given row gives: the bits of its cells, from the
    /// left.
    pub open spec fn scanned(&self, row: u8) -> Seq<bool> {
        Seq::new(WIDTH as nat, |x: int| self@.contains(Point { x: x as u8, y: row }))
    }

    /// A walk down the rows of the grid, from the first.
    pub fn iter(&self) -> (r: BitMapIterator<'_>)
        ensures
            r.grid() == *self,
            r.upcoming() == 0,
    {
        return BitMapIterator { map: self, row: 0 }
    }

    /// A scan of the given row.
    pub fn row_iter(&self, row: u8) -> (r: BitMapRowIterator<'_>)
        requires
            row < HEIGHT,
        ensures
            r.remaining() == self.scanned(row),
    {
        let r = BitMapRowIterator { data: &self.content[row as usize], col: 0, buf: 0, counter: 0 };
        proof {
            assert forall|x: int| 0 <= x < WIDTH implies r.remaining()[x] == self.scanned(
                row,
            )[x] by {
                lemma_split_column(x as u8);
            }
        }
        r
    }
}

/// Two wall grids and the cells where a round starts and ends. A cell's right
/// wall is the left wall of the cell to its right, its bottom wall the top
/// wall of the cell below; the panel's right and bottom edges are walls that
/// are not stored.
#[derive(Clone)]
pub struct Maze {
    pub bitmap_left: BitMap,
    pub bitmap_top: BitMap,
    pub start: Point,
    pub end: Point,
}

impl Maze {
    /// A wall stands on the given side of the cell.
    pub open spec fn wall_on(&self, p: Point, direction: Direction) -> bool {
        match direction {
            Direction::Left => self.bitmap_left@.contains(p),
            Direction::Top => self.bitmap_top@.contains(p),
            Direction::Right => !p.has_neighbor(direction) || self.bitmap_left@.contains(
                p.step(direction),
            ),
            Direction::Bottom => !p.has_neighbor(direction) || self.bitmap_top@.contains(
                p.step(direction),
            ),
        }
    }

    /// The cell has a neighbor on the given side and no wall stands between
    /// the two.
    pub open spec fn open_toward(&self, p: Point, direction: Direction) -> bool {
        p.has_neighbor(direction) && !self.wall_on(p, direction)
    }

    /// The two cells are neighbors in the grid and no wall stands between
    /// them.
    pub open spec fn passage(&self, a: Point, b: Point) -> bool {
        exists|direction: Direction| #[trigger]
            self.open_toward(a, direction) && a.step(direction) == b
    }

    /// A maze with every wall standing, starting and ending in the top left
    /// cell.
    pub fn new() -> (r: Maze)
        ensures
            r.bitmap_top@ == BitMap::all_cells(),
            r.bitmap_left@ == BitMap::all_cells(),
            r.start == (Point { x: 0, y: 0 }),
            r.end == (Point { x: 0, y: 0 }),
    {
        Maze {
            bitmap_top: BitMap::new(true),
            bitmap_left: BitMap::new(true),
            start: Point { x: 0, y: 0 },
            end: Point { x: 0, y: 0 },
        }
    }

    /// Takes down the wall on the given side of the cell. The walls along
    /// the right and the bottom edge of the grid are not stored and stay.
    pub fn break_wall(&mut self, location: Point, dir: Direction)
        requires
            location.in_grid(),
        ensures
            final(self).start == old(self).start,
            final(self).end == old(self).end,
            final(self).bitmap_top@ == match dir {
                Direction::Top => old(self).bitmap_top@.remove(location),
                Direction::Bottom => if location.has_neighbor(dir) {
                    old(self).bitmap_top@.remove(location.step(dir))
                } else {
                    old(self).bitmap_top@
                },
                _ => old(self).bitmap_top@,
            },
            final(self).bitmap_left@ == match dir {
                Direction::Left => old(self).bitmap_left@.remove(location),
                Direction::Right => if location.has_neighbor(dir) {
                    old(self).bitmap_left@.remove(location.step(dir))
                } else {
                    old(self).bitmap_left@
                },
                _ => old(self).bitmap_left@,
            },
    {
        match dir {
            Direction::Top => self.bitmap_top.set(location, false),
            Direction::Left => self.bitmap_left.set(location, false),
            Direction::Bottom => {
                if location.y < HEIGHT - 1 {
                    self.bitmap_top.set(location.bottom(), false)
                }
            },
            Direction::Right => {
                if location.x < WIDTH - 1 {
                    self.bitmap_left.set(location.right(), false)
                }
            },
        }
    }

    /// The ball may pass from the one area to the other: both belong to
    /// the same maze cell, or to two cells of the grid that share a
    /// passage.
    pub open spec fn linked(&self, a: Cell, b: Cell) -> bool {
        ||| (a.column() == b.column() && a.row() == b.row())
        ||| (a.on_grid() && b.on_grid() && self.passage(a.address(), b.address()))
    }

    /// Whether the ball may pass from the one area to the other.
    pub fn connected(&self, a: &Cell, b: &Cell) -> (r: bool)
        ensures
            r == self.linked(*a, *b),
    {
        let ax: u16 = a.grid_column();
        let ay: u16 = a.grid_row();
        let bx: u16 = b.grid_column();
        let by: u16 = b.grid_row();
        if ax == bx && ay == by {
            return true;
        }
        if ax >= WIDTH as u16 || bx >= WIDTH as u16 || ay >= HEIGHT as u16 || by >= HEIGHT as u16 {
            return false;
        }
        let from = Point { x: ax as u8, y: ay as u8 };
        let to = Point { x: bx as u8, y: by as u8 };
        let r = if ay == by && ax + 1 == bx {
            !self.bitmap_left.get(to)
        } else if ay == by && bx + 1 == ax {
            !self.bitmap_left.get(from)
        } else if ax == bx && ay + 1 == by {
            !self.bitmap_top.get(to)
        } else if ax == bx && by + 1 == ay {
            !self.bitmap_top.get(from)
        } else {
            false
        };
        proof {
            if r {
                let d = if ax + 1 == bx {
                    Direction::Right
                } else if bx + 1 == ax {
                    Direction::Left
                } else if ay + 1 == by {
                    Direction::Bottom
                } else {
                    Direction::Top
                };
                assert(self.open_toward(from, d) && from.step(d) == to);
            }
        }
        r
    }

    /// What a scan of the given row of both grids gives: for each cell of
    /// the row, whether a wall stands to its left and whether one stands
    /// above it.
    pub open spec fn scanned_pairs(&self, row: u8) -> Seq<(bool, bool)> {
        Seq::new(
            WIDTH as nat,
            |x: int|
                (
                    self.bitmap_left@.contains(Point { x: x as u8, y: row }),
                    self.bitmap_top@.contains(Point { x: x as u8, y: row }),
                ),
        )
    }

    /// The scans of both grids for each row, from the top.
    pub fn row_iter(&self) -> (r: [(BitMapRowIterator<'_>, BitMapRowIterator<'_>); ROWS])
        ensures
            forall|i: int|
                0 <= i < ROWS ==> (#[trigger] r[i]).0.remaining()
                    == self.bitmap_left.scanned(i as u8) && r[i].1.remaining()
                    == self.bitmap_top.scanned(i as u8),
    {
        let mut left_rows = self.bitmap_left.iter();
        let mut top_rows = self.bitmap_top.iter();
        let blank = (self.bitmap_left.row_iter(0), self.bitmap_top.row_iter(0));
        let mut rows: [(BitMapRowIterator<'_>, BitMapRowIterator<'_>); ROWS] = [blank; ROWS];
        let mut filled: usize = 0;
        loop
            invariant_except_break
                left_rows.upcoming() == filled,
                top_rows.upcoming() == filled,
            invariant
                left_rows.grid() == self.bitmap_left,
                top_rows.grid() == self.bitmap_top,
                filled <= ROWS,
                forall|i: int|
                    0 <= i < filled ==> (#[trigger] rows[i]).0.remaining()
                        == self.bitmap_left.scanned(i as u8) && rows[i].1.remaining()
                        == self.bitmap_top.scanned(i as u8),
            ensures
                filled == ROWS,
            decreases ROWS - filled,
        {
            match left_rows.next() {
                None => {
                    break ;
                },
                Some(left) => {
                    match top_rows.next() {
                        None => {
                            break ;
                        },
                        Some(top) => {
                            rows[filled] = (left, top);
                            filled += 1;
                        },
                    }
                },
            }
        }
        rows
    }

    /// For each row, from the top, what a scan of the row of both grids
    /// gives.
    pub fn grid_iter(&self) -> (r: [[(bool, bool); COLUMNS]; ROWS])
        ensures
            forall|i: int|
                0 <= i < ROWS ==> (#[trigger] r[i])@ == self.scanned_pairs(i as u8),
    {
        let scans = self.row_iter();
        let mut grid: [[(bool, bool); COLUMNS]; ROWS] = [[(false, false); COLUMNS]; ROWS];
        let mut row: usize = 0;
        while row < ROWS
            invariant
                row <= ROWS,
                forall|i: int|
                    0 <= i < ROWS ==> (#[trigger] scans[i]).0.remaining()
                        == self.bitmap_left.scanned(i as u8) && scans[i].1.remaining()
                        == self.bitmap_top.scanned(i as u8),
                forall|i: int|
                    0 <= i < row ==> (#[trigger] grid[i])@ == self.scanned_pairs(i as u8),
            decreases ROWS - row,
        {
            let (left, top) = scans[row];
            grid[row] = zip_scans(left, top);
            row += 1;
        }
        grid
    }
}

/// Runs two scans of whole rows side by side.
fn zip_scans(left: BitMapRowIterator<'_>, top: BitMapRowIterator<'_>) -> (r: [(bool, bool);
    COLUMNS])
    requires
        left.remaining().len() == COLUMNS,
        top.remaining().len() == COLUMNS,
    ensures
        forall|i: int| 0 <= i < COLUMNS ==> r[i] == (left.remaining()[i], top.remaining()[i]),
{
    let mut left = left;
    let mut top = top;
    let mut pairs: [(bool, bool); COLUMNS] = [(false, false); COLUMNS];
    let ghost lefts = left.remaining();
    let ghost tops = top.remaining();
    let mut filled: usize = 0;
    loop
        invariant_except_break
            left.remaining() == lefts.skip(filled as int),
            top.remaining() == tops.skip(filled as int),
        invariant
            lefts.len() == COLUMNS,
            tops.len() == COLUMNS,
            filled <= COLUMNS,
            forall|i: int| 0 <= i < filled ==> pairs[i] == (lefts[i], tops[i]),
        ensures
            filled == COLUMNS,
        decreases COLUMNS - filled,
    {
        match left.next() {
            None => {
                break ;
            },
            Some(l) => {
                match top.next() {
                    None => {
                        break ;
                    },
                    Some(t) => {
                        pairs[filled] = (l, t);
                        filled += 1;
                    },
                }
            },
        }
    }
    pairs
}

} // verus!
