//! What makes a maze perfect: its passages link every cell to the start
//! along exactly one way. The lemmas here derive that from a parent for
//! every cell, one step closer to the start.

use vstd::prelude::*;
use vstd::set_lib::{lemma_int_range, lemma_map_size, set_int_range};
use vstd::relations::injective_on;
use crate::maze::{BitMap, Direction, Maze, Point, WIDTH};

verus! {

/// Cells in the grid.
pub const CELLS: usize = 512;

impl Maze {
    /// A way through the maze: a cell of the grid, then cells that each
    /// share a passage with the one before.
    pub open spec fn is_walk(&self, path: Seq<Point>) -> bool {
        &&& path.len() >= 1
        &&& path[0].in_grid()
        &&& forall|i: int| 0 <= i < path.len() - 1 ==> self.passage(#[trigger] path[i], path[i + 1])
    }

    /// A way leads from `a` to `b`.
    pub open spec fn reachable(&self, a: Point, b: Point) -> bool {
        exists|path: Seq<Point>| #[trigger] self.is_walk(path) && path[0] == a && path.last() == b
    }

    /// A way through three or more different cells whose last cell shares
    /// a passage with its first.
    pub open spec fn is_cycle(&self, cycle: Seq<Point>) -> bool {
        &&& cycle.len() >= 3
        &&& self.is_walk(cycle)
        &&& self.passage(cycle.last(), cycle[0])
        &&& cycle.no_duplicates()
    }

    /// The number of stored walls that have been taken down.
    pub open spec fn cleared_walls(&self) -> nat {
        BitMap::all_cells().difference(self.bitmap_top@).len() + BitMap::all_cells().difference(
            self.bitmap_left@,
        ).len()
    }

    /// The walls along the top and the left edge of the grid stand. Those
    /// along the right and the bottom edge are not stored and always stand.
    pub open spec fn is_enclosed(&self) -> bool {
        &&& forall|p: Point| p.in_grid() && p.y == 0 ==> #[trigger] self.bitmap_top@.contains(p)
        &&& forall|p: Point| p.in_grid() && p.x == 0 ==> #[trigger] self.bitmap_left@.contains(p)
    }

    /// The passages form a tree that spans the grid: one wall fewer than
    /// there are cells has been taken down, every cell can be reached from
    /// the start, and no way leads round in a circle.
    pub open spec fn is_perfect(&self) -> bool {
        &&& self.start.in_grid()
        &&& self.cleared_walls() == CELLS - 1
        &&& forall|c: Point| c.in_grid() ==> #[trigger] self.reachable(self.start, c)
        &&& forall|cycle: Seq<Point>| !#[trigger] self.is_cycle(cycle)
    }

    /// Every cell but the start has a parent across a passage, one step
    /// closer to the start, and every passage links a cell to its parent.
    pub open spec fn hangs_from(
        &self,
        parent: spec_fn(Point) -> Point,
        depth: spec_fn(Point) -> int,
    ) -> bool {
        &&& self.start.in_grid()
        &&& depth(self.start) == 0
        &&& forall|p: Point|
            #![trigger depth(p)]
            p.in_grid() ==> depth(p) >= 0
        &&& forall|p: Point|
            #![trigger parent(p)]
            p.in_grid() && p != self.start ==> self.passage(p, parent(p)) && depth(p) == depth(
                parent(p),
            ) + 1
        &&& forall|a: Point, b: Point| #[trigger]
            self.passage(a, b) ==> (a != self.start && parent(a) == b) || (b != self.start
                && parent(b) == a)
    }
}

/// The side opposite to the given one.
pub open spec fn opposite(direction: Direction) -> Direction {
    match direction {
        Direction::Left => Direction::Right,
        Direction::Right => Direction::Left,
        Direction::Top => Direction::Bottom,
        Direction::Bottom => Direction::Top,
    }
}

/// A passage can be walked both ways, and both of its cells are in the grid.
pub proof fn lemma_passage_both_ways(maze: &Maze, a: Point, b: Point)
    requires
        maze.passage(a, b),
    ensures
        maze.passage(b, a),
        a.in_grid(),
        b.in_grid(),
        a != b,
{
    let d = choose|d: Direction| #[trigger] maze.open_toward(a, d) && a.step(d) == b;
    assert(maze.open_toward(b, opposite(d)) && b.step(opposite(d)) == a);
}

/// The grid has `CELLS` cells.
pub proof fn lemma_cell_count()
    ensures
        BitMap::all_cells().finite(),
        BitMap::all_cells().len() == CELLS,
{
    let numbers = set_int_range(0, CELLS as int);
    let place = |i: int| Point { x: (i % (WIDTH as int)) as u8, y: (i / (WIDTH as int)) as u8 };
    lemma_int_range(0, CELLS as int);
    assert forall|p: Point| BitMap::all_cells().contains(p) implies numbers.map(place).contains(
        p,
    ) by {
        let i = p.y as int * (WIDTH as int) + p.x as int;
        assert(numbers.contains(i) && place(i) == p);
    }
    assert(numbers.map(place) =~= BitMap::all_cells());
    lemma_map_size(numbers, BitMap::all_cells(), place);
}

proof fn lemma_fills_row(cells: Set<Point>, root: Point, x: int)
    requires
        root.in_grid(),
        cells.contains(root),
        forall|p: Point, d: Direction|
            cells.contains(p) && #[trigger] p.has_neighbor(d) ==> cells.contains(p.step(d)),
        0 <= x < WIDTH,
    ensures
        cells.contains(Point { x: x as u8, y: root.y }),
    decreases
            if x < root.x {
                root.x - x
            } else {
                x - root.x
            },
{
    if x < root.x {
        lemma_fills_row(cells, root, x + 1);
        let p = Point { x: (x + 1) as u8, y: root.y };
        assert(p.has_neighbor(Direction::Left));
    } else if x > root.x {
        lemma_fills_row(cells, root, x - 1);
        let p = Point { x: (x - 1) as u8, y: root.y };
        assert(p.has_neighbor(Direction::Right));
    }
}

/// A set of cells that holds one cell of the grid and, with each of its
/// cells, that cell's neighbors holds every cell of the grid.
pub proof fn lemma_fills_grid(cells: Set<Point>, root: Point, target: Point)
    requires
        root.in_grid(),
        cells.contains(root),
        forall|p: Point, d: Direction|
            cells.contains(p) && #[trigger] p.has_neighbor(d) ==> cells.contains(p.step(d)),
        target.in_grid(),
    ensures
        cells.contains(target),
    decreases
            if target.y < root.y {
                root.y - target.y
            } else {
                target.y - root.y
            },
{
    if target.y < root.y {
        let p = Point { x: target.x, y: (target.y + 1) as u8 };
        lemma_fills_grid(cells, root, p);
        assert(p.has_neighbor(Direction::Top));
    } else if target.y > root.y {
        let p = Point { x: target.x, y: (target.y - 1) as u8 };
        lemma_fills_grid(cells, root, p);
        assert(p.has_neighbor(Direction::Bottom));
    } else {
        lemma_fills_row(cells, root, target.x as int);
    }
}

/// In a maze that hangs from parents, every cell can be reached from the
/// start.
pub proof fn lemma_tree_reaches(
    maze: &Maze,
    parent: spec_fn(Point) -> Point,
    depth: spec_fn(Point) -> int,
    c: Point,
)
    requires
        maze.hangs_from(parent, depth),
        c.in_grid(),
    ensures
        maze.reachable(maze.start, c),
    decreases depth(c),
{
    if c == maze.start {
        let path = seq![c];
        assert(maze.is_walk(path) && path[0] == maze.start && path.last() == c);
    } else {
        let q = parent(c);
        lemma_passage_both_ways(maze, c, q);
        lemma_tree_reaches(maze, parent, depth, q);
        let shorter = choose|path: Seq<Point>| #[trigger]
            maze.is_walk(path) && path[0] == maze.start && path.last() == q;
        let path = shorter.push(c);
        assert forall|i: int| 0 <= i < path.len() - 1 implies maze.passage(
            #[trigger] path[i],
            path[i + 1],
        ) by {
            if i < shorter.len() - 1 {
                assert(maze.passage(shorter[i], shorter[i + 1]));
            }
        }
        assert(maze.is_walk(path) && path[0] == maze.start && path.last() == c);
    }
}

proof fn lemma_deepest(depth: spec_fn(Point) -> int, cells: Seq<Point>) -> (m: int)
    requires
        cells.len() >= 1,
    ensures
        0 <= m < cells.len(),
        forall|i: int| 0 <= i < cells.len() ==> depth(#[trigger] cells[i]) <= depth(cells[m]),
    decreases cells.len(),
{
    if cells.len() == 1 {
        0
    } else {
        let before = lemma_deepest(depth, cells.drop_last());
        let m = if depth(cells.last()) > depth(cells[before]) {
            cells.len() - 1
        } else {
            before
        };
        assert forall|i: int| 0 <= i < cells.len() implies depth(#[trigger] cells[i])
            <= depth(cells[m]) by {
            if i < cells.len() - 1 {
                assert(cells.drop_last()[i] == cells[i]);
            }
        }
        m
    }
}

/// In a maze that hangs from parents, no way leads round in a circle.
pub proof fn lemma_tree_has_no_cycle(
    maze: &Maze,
    parent: spec_fn(Point) -> Point,
    depth: spec_fn(Point) -> int,
    cycle: Seq<Point>,
)
    requires
        maze.hangs_from(parent, depth),
    ensures
        !maze.is_cycle(cycle),
{
    if maze.is_cycle(cycle) {
        let n = cycle.len() as int;
        let m = lemma_deepest(depth, cycle);
        let before = if m == 0 {
            n - 1
        } else {
            m - 1
        };
        let after = if m == n - 1 {
            0
        } else {
            m + 1
        };
        let deep = cycle[m];
        // The cells before and after the deepest cell of the circle are no
        // deeper than it, so each is its parent: one cell at two places.
        assert(maze.passage(cycle[before], deep)) by {
            if m > 0 {
                assert(maze.passage(cycle[m - 1], cycle[m - 1 + 1]));
            }
        }
        assert(maze.passage(deep, cycle[after])) by {
            if m < n - 1 {
                assert(maze.passage(cycle[m], cycle[m + 1]));
            }
        }
        lemma_passage_both_ways(maze, cycle[before], deep);
        assert(depth(cycle[before]) <= depth(deep));
        assert(depth(cycle[after]) <= depth(deep));
        assert(maze.passage(deep, cycle[before]));
        assert(deep != maze.start && parent(deep) == cycle[before]);
        assert(deep != maze.start && parent(deep) == cycle[after]);
        assert(before != after);
        assert(cycle[before] == cycle[after]);
    }
}

/// A maze that hangs from parents and has one cleared wall fewer than there
/// are cells is perfect.
pub proof fn lemma_tree_is_perfect(
    maze: &Maze,
    parent: spec_fn(Point) -> Point,
    depth: spec_fn(Point) -> int,
)
    requires
        maze.hangs_from(parent, depth),
        maze.cleared_walls() == CELLS - 1,
    ensures
        maze.is_perfect(),
{
    assert forall|c: Point| c.in_grid() implies #[trigger] maze.reachable(maze.start, c) by {
        lemma_tree_reaches(maze, parent, depth, c);
    }
    assert forall|cycle: Seq<Point>| !#[trigger] maze.is_cycle(cycle) by {
        lemma_tree_has_no_cycle(maze, parent, depth, cycle);
    }
}

} // verus!
