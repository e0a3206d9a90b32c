//! The maze generator: a random walk that carves a perfect maze without a
//! stack. Each cell remembers in one byte the side it was entered from and
//! the sides the walk has left it by, so that stepping back is following
//! the entry side.

use vstd::prelude::*;
use rand::rngs::SmallRng;
use rand::{Rng, SeedableRng};
use crate::maze::{BitMap, Direction, Maze, Point, COLUMNS, HEIGHT, ROWS, WIDTH};
use crate::spanning::CELLS;

verus! {

/// Code of the top side in a cell's state.
pub const TOP: u8 = 0b1000;

/// Code of the bottom side in a cell's state.
pub const BOTTOM: u8 = 0b0100;

/// Code of the left side in a cell's state.
pub const LEFT: u8 = 0b0010;

/// Code of the right side in a cell's state.
pub const RIGHT: u8 = 0b0001;

/// Draws after which the walk stops waiting for a free side to come up and
/// takes the lowest free one.
pub const DRAW_LIMIT: u8 = 64;

/// The seed of a new generator.
pub const SEED: [u8; 16] = [0, 12, 0, 25, 0, 0, 0, 0, 0, 0, 0, 1, 0, 0, 0, 15];

/// rand's `SmallRng`, held as a value that nothing is known of.
#[verifier::external_type_specification]
#[verifier::external_body]
pub struct ExSmallRng(rand::rngs::SmallRng);

/// `SeedableRng::from_seed` on rand's `SmallRng`: builds the generator from
/// sixteen seed bytes. Nothing is claimed of the generator it returns.
#[verifier::external_body]
fn seeded(seed: [u8; 16]) -> SmallRng {
    SmallRng::from_seed(seed)
}

/// `Rng::gen` for a `u8` on rand's `SmallRng`: the next byte of the
/// generator. Nothing is claimed of the byte: the walk is proved for every
/// value that may come.
#[verifier::external_body]
fn draw(rng: &mut SmallRng) -> u8 {
    rng.gen()
}

/// The byte is the code of one side.
pub open spec fn is_code(code: u8) -> bool {
    code == TOP || code == BOTTOM || code == LEFT || code == RIGHT
}

/// The code of a side.
pub open spec fn code_of(direction: Direction) -> u8 {
    match direction {
        Direction::Top => TOP,
        Direction::Bottom => BOTTOM,
        Direction::Left => LEFT,
        Direction::Right => RIGHT,
    }
}

/// The side that a code stands for; what is no code stands for the right.
pub open spec fn side_of(code: u8) -> Direction {
    if code == TOP {
        Direction::Top
    } else if code == BOTTOM {
        Direction::Bottom
    } else if code == LEFT {
        Direction::Left
    } else {
        Direction::Right
    }
}

/// The code of the opposite side.
pub open spec fn opposite_code(code: u8) -> u8 {
    if code == TOP {
        BOTTOM
    } else if code == BOTTOM {
        TOP
    } else if code == LEFT {
        RIGHT
    } else {
        LEFT
    }
}

/// The side a cell was entered from, as stored in its state: the high four
/// bits, zero in the cell where the walk began.
pub open spec fn incoming_of(state: u8) -> u8 {
    state >> 4u8
}

/// The sides by which the walk has left a cell, as stored in its state: the
/// low four bits.
pub open spec fn outgoing_of(state: u8) -> u8 {
    state & 0b1111u8
}

/// The mask holds the side.
pub open spec fn mask_has(mask: u8, direction: Direction) -> bool {
    mask & code_of(direction) != 0
}

/// The side picked by one drawn byte from those that are free, as a code,
/// or zero where the byte names a side that is not free.
pub open spec fn drawn_side(available: u8, drawn: u8) -> u8 {
    available & (1u8 << (drawn & 0b11u8))
}

/// The cell that two drawn bytes pick for the walk to begin in.
pub open spec fn drawn_root(x: u8, y: u8) -> Point {
    Point { x: x >> 3u8, y: y >> 4u8 }
}

proof fn lemma_leave(state: u8, code: u8, other: u8)
    by (bit_vector)
    requires
        code == 8 || code == 4 || code == 2 || code == 1,
        other == 8 || other == 4 || other == 2 || other == 1,
    ensures
        (state | code) >> 4u8 == state >> 4u8,
        ((state | code) & 0b1111u8) & other != 0 <==> ((state & 0b1111u8) & other != 0 || other
            == code),
{
}

proof fn lemma_enter(code: u8, other: u8)
    by (bit_vector)
    requires
        code == 8 || code == 4 || code == 2 || code == 1,
        other == 8 || other == 4 || other == 2 || other == 1,
    ensures
        (0u8 | (code << 4u8)) >> 4u8 == code,
        ((0u8 | (code << 4u8)) & 0b1111u8) & other == 0,
{
}

proof fn lemma_untouched(other: u8)
    by (bit_vector)
    ensures
        0u8 >> 4u8 == 0,
        (0u8 & 0b1111u8) & other == 0,
{
}

proof fn lemma_free(incoming: u8, outgoing: u8, other: u8)
    by (bit_vector)
    requires
        other == 8 || other == 4 || other == 2 || other == 1,
    ensures
        (!(incoming | outgoing) & 0b1111u8) & other != 0 <==> (incoming & other == 0 && outgoing
            & other == 0),
        !(incoming | outgoing) & 0b1111u8 <= 15,
{
}

proof fn lemma_drop(mask: u8, code: u8, other: u8)
    by (bit_vector)
    requires
        code == 8 || code == 4 || code == 2 || code == 1,
        other == 8 || other == 4 || other == 2 || other == 1,
    ensures
        (mask & !code) & other != 0 <==> (mask & other != 0 && other != code),
        mask <= 15 ==> mask & !code <= 15,
{
}

proof fn lemma_empty(mask: u8)
    by (bit_vector)
    requires
        mask <= 15,
    ensures
        mask == 0 <==> (mask & 8 == 0 && mask & 4 == 0 && mask & 2 == 0 && mask & 1 == 0),
{
}

proof fn lemma_entry_side(incoming: u8, other: u8)
    by (bit_vector)
    requires
        incoming == 0 || incoming == 8 || incoming == 4 || incoming == 2 || incoming == 1,
        other == 8 || other == 4 || other == 2 || other == 1,
    ensures
        incoming & other != 0 <==> incoming == other,
{
}

proof fn lemma_drawn(available: u8, drawn: u8)
    by (bit_vector)
    ensures
        drawn & 0b11u8 < 8,
        ({
            let code = 1u8 << (drawn & 0b11u8);
            &&& code == 8 || code == 4 || code == 2 || code == 1
            &&& available & code == 0 || available & code == code
        }),
{
}

proof fn lemma_turn(code: u8)
    by (bit_vector)
    requires
        code == 8 || code == 4 || code == 2 || code == 1,
    ensures
        (code & 0b1010u8 == 0) <==> (code == 4 || code == 1),
        code == 4 ==> code << 1u8 == 8,
        code == 1 ==> code << 1u8 == 2,
        code == 8 ==> code >> 1u8 == 4,
        code == 2 ==> code >> 1u8 == 1,
{
}

proof fn lemma_root(x: u8, y: u8)
    by (bit_vector)
    ensures
        x >> 3u8 == x / 8,
        y >> 4u8 == y / 16,
{
}

/// The side that a code stands for.
pub fn bin_to_dir(bindir: u8) -> (r: Direction)
    ensures
        r == side_of(bindir),
{
    match bindir {
        0b1000 => Direction::Top,
        0b0100 => Direction::Bottom,
        0b0010 => Direction::Left,
        0b0001 | _ => Direction::Right,
    }
}

/// The code of the side opposite to the one that `bindir` stands for.
pub fn bin_dir_opposite(bindir: u8) -> (r: u8)
    requires
        is_code(bindir),
    ensures
        r == opposite_code(bindir),
        is_code(r),
{
    proof {
        lemma_turn(bindir);
    }
    if bindir & 0b1010 == 0 {
        // down or right
        bindir << 1
    } else {
        bindir >> 1
    }
}

/// The side that one drawn byte picks from those that are free: the code
/// that the byte's two low bits name where that side is free, else zero.
pub fn choose_direction(available: u8, drawn: u8) -> (r: u8)
    ensures
        r == drawn_side(available, drawn),
        r == 0 || (is_code(r) && available & r == r),
{
    proof {
        lemma_drawn(available, drawn);
    }
    let rand_num: u8 = 1_u8 << (drawn & 0b11_u8);
    available & rand_num
}

/// The cell that two drawn bytes pick for the walk to begin in. Eight
/// values of `x` pick each column and sixteen values of `y` each row, so
/// that every cell of the grid is picked by as many pairs of bytes as any
/// other.
pub fn choose_root(x: u8, y: u8) -> (r: Point)
    ensures
        r == drawn_root(x, y),
        r.x == x / 8,
        r.y == y / 16,
        r.in_grid(),
{
    proof {
        lemma_root(x, y);
    }
    Point { x: x >> 3, y: y >> 4 }
}

/// The state of a walk: one byte for each cell, the cells the walk has left
/// at least once, and the source of its random bytes.
pub struct MazeGenerator {
    state: [[u8; COLUMNS]; ROWS],
    visited: BitMap,
    rng: SmallRng,
}

impl MazeGenerator {
    /// The state byte of a cell.
    pub closed spec fn at(&self, p: Point) -> u8 {
        self.state[p.y as int][p.x as int]
    }

    /// The cells that the walk has left at least once.
    pub closed spec fn left_behind(&self) -> Set<Point> {
        self.visited@
    }

    /// No cell has been entered or left.
    pub open spec fn is_clear(&self) -> bool {
        &&& self.left_behind() == Set::<Point>::empty()
        &&& forall|p: Point| p.in_grid() ==> #[trigger] self.at(p) == 0
    }

    /// A generator with the fixed seed, ready for a walk.
    pub fn new() -> (r: MazeGenerator)
        ensures
            r.is_clear(),
    {
        let rng = seeded(SEED);
        MazeGenerator { state: [[0; COLUMNS]; ROWS], visited: BitMap::new(false), rng }
    }
}

impl MazeGenerator {
    /// The side `direction` of `current` is free for the walk to take: a
    /// neighbor is there, the walk neither came from it nor left by it, and
    /// it has never left the neighbor.
    pub open spec fn is_free(&self, current: Point, direction: Direction) -> bool {
        &&& current.has_neighbor(direction)
        &&& !mask_has(incoming_of(self.at(current)), direction)
        &&& !mask_has(outgoing_of(self.at(current)), direction)
        &&& !self.left_behind().contains(current.step(direction))
    }

    /// Takes the side `code` out of `available` where the walk has already
    /// left the neighbor on that side.
    fn unvisited_only(&self, current: Point, available: u8, code: u8) -> (r: u8)
        requires
            current.in_grid(),
            is_code(code),
            available <= 15,
            mask_has(available, side_of(code)) ==> current.has_neighbor(side_of(code)),
        ensures
            r <= 15,
            forall|d: Direction|
                #![trigger mask_has(r, d)]
                mask_has(r, d) <==> mask_has(available, d) && !(d == side_of(code)
                    && self.left_behind().contains(current.step(d))),
    {
        let mut kept: u8 = available;
        if available & code != 0 {
            let point = current.dir(bin_to_dir(code));
            if self.visited.get(point) {
                // The cell on this side has been walked already.
                kept = available & !code;
            }
        }
        proof {
            assert forall|d: Direction| #![trigger mask_has(kept, d)] true implies (mask_has(
                kept,
                d,
            ) <==> mask_has(available, d) && !(d == side_of(code)
                && self.left_behind().contains(current.step(d)))) by {
                lemma_drop(available, code, code_of(d));
            }
            lemma_drop(available, code, code);
        }
        kept
    }

    /// The sides of `current` that are free for the walk to take, as a
    /// mask of their codes.
    fn free_edges(&self, current: Point) -> (available: u8)
        requires
            current.in_grid(),
        ensures
            available <= 15,
            forall|d: Direction|
                #![trigger mask_has(available, d)]
                mask_has(available, d) <==> self.is_free(current, d),
            available == 0 <==> (forall|d: Direction| !#[trigger] self.is_free(current, d)),
    {
        let current_state: u8 = self.state[current.y as usize][current.x as usize];
        let incoming_edges: u8 = current_state >> 4;  // first four bits
        let outgoing_edges: u8 = current_state & 0b1111;  // last four bits
        let unused: u8 = !(incoming_edges | outgoing_edges) & 0b1111;
        let mut inside: u8 = unused;
        if current.x == 0 {
            inside = inside & !LEFT;  // dont go left
        } else if current.x == WIDTH - 1 {
            inside = inside & !RIGHT;  // dont go right
        }
        let across: u8 = inside;
        if current.y == 0 {
            inside = inside & !TOP;  // dont go up
        } else if current.y == HEIGHT - 1 {
            inside = inside & !BOTTOM;  // dont go down
        }
        proof {
            lemma_free(incoming_edges, outgoing_edges, TOP);
            assert forall|d: Direction| #![trigger mask_has(inside, d)] true implies (mask_has(
                inside,
                d,
            ) <==> current.has_neighbor(d) && !mask_has(incoming_edges, d) && !mask_has(
                outgoing_edges,
                d,
            )) by {
                lemma_free(incoming_edges, outgoing_edges, code_of(d));
                lemma_drop(unused, LEFT, code_of(d));
                lemma_drop(unused, RIGHT, code_of(d));
                lemma_drop(across, TOP, code_of(d));
                lemma_drop(across, BOTTOM, code_of(d));
            }
            lemma_drop(unused, LEFT, LEFT);
            lemma_drop(unused, RIGHT, RIGHT);
            lemma_drop(across, TOP, TOP);
            lemma_drop(across, BOTTOM, BOTTOM);
        }
        let first: u8 = self.unvisited_only(current, inside, RIGHT);
        let second: u8 = self.unvisited_only(current, first, LEFT);
        let third: u8 = self.unvisited_only(current, second, BOTTOM);
        let available: u8 = self.unvisited_only(current, third, TOP);
        proof {
            lemma_empty(available);
            if available == 0 {
                assert forall|d: Direction| !#[trigger] self.is_free(current, d) by {
                    assert(!mask_has(available, d));
                }
            } else {
                if available & 8 != 0 {
                    assert(mask_has(available, Direction::Top));
                    assert(self.is_free(current, Direction::Top));
                } else if available & 4 != 0 {
                    assert(mask_has(available, Direction::Bottom));
                    assert(self.is_free(current, Direction::Bottom));
                } else if available & 2 != 0 {
                    assert(mask_has(available, Direction::Left));
                    assert(self.is_free(current, Direction::Left));
                } else {
                    assert(mask_has(available, Direction::Right));
                    assert(self.is_free(current, Direction::Right));
                }
            }
        }
        available
    }

    /// Picks one of the free sides. Bytes are drawn until one names a free
    /// side; after `DRAW_LIMIT` draws in vain the lowest free code is
    /// taken, so that the walk goes on whatever the source yields.
    fn pick_edge(&mut self, available: u8) -> (dir_to_go: u8)
        requires
            0 < available <= 15,
        ensures
            is_code(dir_to_go),
            available & dir_to_go != 0,
            forall|p: Point| #[trigger] final(self).at(p) == old(self).at(p),
            final(self).left_behind() == old(self).left_behind(),
    {
        let mut dir_to_go: u8 = 0;
        let mut draws: u8 = 0;
        while dir_to_go == 0 && draws < DRAW_LIMIT
            invariant
                draws <= DRAW_LIMIT,
                dir_to_go == 0 || (is_code(dir_to_go) && available & dir_to_go == dir_to_go),
                self.state == old(self).state,
                self.visited == old(self).visited,
            decreases DRAW_LIMIT - draws,
        {
            let rand_num: u8 = draw(&mut self.rng);
            dir_to_go = choose_direction(available, rand_num);
            draws += 1;
        }
        if dir_to_go == 0 {
            proof {
                lemma_empty(available);
            }
            dir_to_go =
            if available & RIGHT != 0 {
                RIGHT
            } else if available & LEFT != 0 {
                LEFT
            } else if available & BOTTOM != 0 {
                BOTTOM
            } else {
                TOP
            };
        }
        dir_to_go
    }
}

/// What a walk under way has reached: the cells entered so far, how many
/// steps from the root each was entered, and the cells from the root to the
/// one the walk stands in.
struct Walk {
    entered: Set<Point>,
    depth: spec_fn(Point) -> int,
    path: Seq<Point>,
}

/// The cell lies on the way from the root to where the walk stands.
spec fn on_path(w: Walk, p: Point) -> bool {
    0 <= (w.depth)(p) < w.path.len() && w.path[(w.depth)(p)] == p
}

/// Where the walk has left `p` by the side `d`, it has entered the
/// neighbor there.
spec fn taken_ok(gen: &MazeGenerator, w: Walk, p: Point, d: Direction) -> bool {
    mask_has(outgoing_of(gen.at(p)), d) ==> p.has_neighbor(d) && w.entered.contains(p.step(d))
}

/// The neighbor of `p` on the side `d`, if there is one, has been entered.
spec fn side_done(w: Walk, p: Point, d: Direction) -> bool {
    p.has_neighbor(d) ==> w.entered.contains(p.step(d))
}

/// The cell from which `p` was entered.
spec fn parent_of(gen: &MazeGenerator, p: Point) -> Point {
    p.step(side_of(incoming_of(gen.at(p))))
}

/// What holds of every cell of the grid while the walk is under way.
spec fn cell_ok(gen: &MazeGenerator, maze: &Maze, w: Walk, current: Point, p: Point) -> bool {
    let inc = incoming_of(gen.at(p));
    &&& w.entered.contains(p) || gen.at(p) == 0
    &&& p != current ==> (gen.left_behind().contains(p) <==> w.entered.contains(p))
    &&& inc == 0 || is_code(inc)
    &&& w.entered.contains(p) ==> (inc == 0 <==> p == maze.start)
    &&& w.entered.contains(p) ==> (w.depth)(p) >= 0
    &&& w.entered.contains(p) && inc != 0 ==> {
        &&& p.has_neighbor(side_of(inc))
        &&& w.entered.contains(parent_of(gen, p))
        &&& (w.depth)(p) == (w.depth)(parent_of(gen, p)) + 1
    }
    &&& taken_ok(gen, w, p, Direction::Left)
    &&& taken_ok(gen, w, p, Direction::Right)
    &&& taken_ok(gen, w, p, Direction::Top)
    &&& taken_ok(gen, w, p, Direction::Bottom)
    &&& w.entered.contains(p) && !on_path(w, p) ==> {
        &&& side_done(w, p, Direction::Left)
        &&& side_done(w, p, Direction::Right)
        &&& side_done(w, p, Direction::Top)
        &&& side_done(w, p, Direction::Bottom)
    }
    &&& !maze.bitmap_top@.contains(p) <==> (inc == TOP || (p.y > 0 && incoming_of(
        gen.at(p.step(Direction::Top)),
    ) == BOTTOM))
    &&& !maze.bitmap_left@.contains(p) <==> (inc == LEFT || (p.x > 0 && incoming_of(
        gen.at(p.step(Direction::Left)),
    ) == RIGHT))
}

/// What holds while the walk is under way and stands in `current`.
spec fn walking(gen: &MazeGenerator, maze: &Maze, w: Walk, current: Point) -> bool {
    &&& current.in_grid()
    &&& maze.start.in_grid()
    &&& w.entered.finite()
    &&& forall|p: Point| w.entered.contains(p) ==> #[trigger] p.in_grid()
    &&& (w.depth)(maze.start) == 0
    &&& w.path.len() >= 1
    &&& w.path[0] == maze.start
    &&& w.path.last() == current
    &&& forall|i: int|
        0 <= i < w.path.len() ==> w.entered.contains(#[trigger] w.path[i]) && (w.depth)(w.path[i])
            == i
    &&& forall|i: int|
        1 <= i < w.path.len() ==> parent_of(gen, #[trigger] w.path[i]) == w.path[i - 1]
    &&& maze.cleared_walls() + 1 == w.entered.len()
    &&& forall|p: Point| p.in_grid() ==> #[trigger] cell_ok(gen, maze, w, current, p)
}

/// What is left for the walk to do: it ends before this reaches zero.
spec fn work_left(w: Walk) -> int {
    2 * (CELLS - w.entered.len()) + w.path.len()
}

/// What the four bit lemmas say of a state byte to which a side by which
/// the walk leaves has been added.
proof fn lemma_left_by(state: u8, code: u8)
    requires
        is_code(code),
    ensures
        incoming_of(state | code) == incoming_of(state),
        forall|d: Direction|
            #![trigger mask_has(outgoing_of(state | code), d)]
            mask_has(outgoing_of(state | code), d) <==> mask_has(outgoing_of(state), d) || d
                == side_of(code),
{
    lemma_leave(state, code, TOP);
    assert forall|d: Direction|
        #![trigger mask_has(outgoing_of(state | code), d)]
        true implies (mask_has(outgoing_of(state | code), d) <==> mask_has(outgoing_of(state), d)
        || d == side_of(code)) by {
        lemma_leave(state, code, code_of(d));
    }
}

/// What the bit lemmas say of the state byte of a cell just entered.
proof fn lemma_entered_by(code: u8)
    requires
        is_code(code),
    ensures
        incoming_of(0u8 | (code << 4u8)) == code,
        forall|d: Direction| !#[trigger] mask_has(outgoing_of(0u8 | (code << 4u8)), d),
{
    lemma_enter(code, TOP);
    assert forall|d: Direction| !#[trigger] mask_has(outgoing_of(0u8 | (code << 4u8)), d) by {
        lemma_enter(code, code_of(d));
    }
}

/// What the bit lemmas say of the state byte of a cell never entered.
proof fn lemma_never_entered()
    ensures
        incoming_of(0u8) == 0,
        forall|d: Direction| !#[trigger] mask_has(outgoing_of(0u8), d),
{
    lemma_untouched(TOP);
    assert forall|d: Direction| !#[trigger] mask_has(outgoing_of(0u8), d) by {
        lemma_untouched(code_of(d));
    }
}

/// Taking down a wall that stands, of a cell of the grid, is one more
/// cleared wall.
proof fn lemma_wall_down(before: Set<Point>, p: Point)
    requires
        p.in_grid(),
        before.contains(p),
    ensures
        BitMap::all_cells().difference(before.remove(p)).len() == BitMap::all_cells().difference(
            before,
        ).len() + 1,
{
    crate::spanning::lemma_cell_count();
    let open = BitMap::all_cells().difference(before);
    assert(BitMap::all_cells().difference(before.remove(p)) =~= open.insert(p));
}

/// The walk before its first step: it stands in the root, which alone has
/// been entered, and every wall stands.
proof fn lemma_start(gen: &MazeGenerator, maze: &Maze) -> (w: Walk)
    requires
        gen.is_clear(),
        maze.start.in_grid(),
        maze.bitmap_top@ == BitMap::all_cells(),
        maze.bitmap_left@ == BitMap::all_cells(),
    ensures
        walking(gen, maze, w, maze.start),
        0 < work_left(w) <= 2 * CELLS,
{
    let root = maze.start;
    let w = Walk {
        entered: Set::<Point>::empty().insert(root),
        depth: |p: Point| 0int,
        path: seq![root],
    };
    lemma_never_entered();
    assert(BitMap::all_cells().difference(BitMap::all_cells()) =~= Set::<Point>::empty());
    assert forall|p: Point| p.in_grid() implies #[trigger] cell_ok(gen, maze, w, root, p) by {
        assert(gen.at(p) == 0);
        if p.y > 0 {
            assert(gen.at(p.step(Direction::Top)) == 0);
        }
        if p.x > 0 {
            assert(gen.at(p.step(Direction::Left)) == 0);
        }
    }
    w
}

/// When no side of the cell the walk stands in is free, every neighbor of
/// that cell has been entered.
proof fn lemma_dead_end(gen: &MazeGenerator, maze: &Maze, w: Walk, current: Point, d: Direction)
    requires
        walking(gen, maze, w, current),
        !gen.is_free(current, d),
    ensures
        side_done(w, current, d),
{
    if current.has_neighbor(d) {
        let n = current.step(d);
        assert(cell_ok(gen, maze, w, current, current));
        assert(cell_ok(gen, maze, w, current, n));
        // The neighbor is where the walk came from, or where it went, or
        // a cell that it has left before.
        lemma_entry_side(incoming_of(gen.at(current)), code_of(d));
        if mask_has(outgoing_of(gen.at(current)), d) {
            assert(taken_ok(gen, w, current, d));
        }
    }
}

/// The walls of `after` are those of `before` but for the one on the side
/// `d` of `p`, which is down.
spec fn wall_taken(before: &Maze, after: &Maze, p: Point, d: Direction) -> bool {
    &&& after.start == before.start
    &&& after.end == before.end
    &&& after.bitmap_top@ == match d {
        Direction::Top => before.bitmap_top@.remove(p),
        Direction::Bottom => before.bitmap_top@.remove(p.step(d)),
        _ => before.bitmap_top@,
    }
    &&& after.bitmap_left@ == match d {
        Direction::Left => before.bitmap_left@.remove(p),
        Direction::Right => before.bitmap_left@.remove(p.step(d)),
        _ => before.bitmap_left@,
    }
}

/// The records of `after` are those of `before` but for a step from
/// `current` by the side `code`.
spec fn step_recorded(
    before: &MazeGenerator,
    after: &MazeGenerator,
    current: Point,
    code: u8,
) -> bool {
    let next = current.step(side_of(code));
    &&& forall|p: Point|
        p.in_grid() && p != current && p != next ==> #[trigger] after.at(p) == before.at(p)
    &&& after.at(current) == before.at(current) | code
    &&& after.at(next) == 0u8 | (opposite_code(code) << 4u8)
    &&& after.left_behind() == before.left_behind().insert(current)
}

/// A step into a free neighbor keeps the walk in order and leaves less to
/// do.
proof fn lemma_forward(
    g0: &MazeGenerator,
    m0: &Maze,
    w0: Walk,
    current: Point,
    g1: &MazeGenerator,
    m1: &Maze,
    code: u8,
) -> (w1: Walk)
    requires
        walking(g0, m0, w0, current),
        is_code(code),
        g0.is_free(current, side_of(code)),
        step_recorded(g0, g1, current, code),
        wall_taken(m0, m1, current, side_of(code)),
    ensures
        walking(g1, m1, w1, current.step(side_of(code))),
        0 < work_left(w1) < work_left(w0),
{
    let d = side_of(code);
    let back = opposite_code(code);
    let next = current.step(d);
    let w1 = Walk {
        entered: w0.entered.insert(next),
        depth: |p: Point| if p == next { w0.path.len() as int } else { (w0.depth)(p) },
        path: w0.path.push(next),
    };
    assert(cell_ok(g0, m0, w0, current, current));
    assert(cell_ok(g0, m0, w0, current, next));
    assert(!w0.entered.contains(next));
    assert(g0.at(next) == 0);
    lemma_left_by(g0.at(current), code);
    lemma_entered_by(back);
    lemma_never_entered();
    assert(w0.entered.contains(current));
    assert((w0.depth)(current) == w0.path.len() - 1);
    assert(parent_of(g1, next) == current);
    // the path
    assert forall|i: int| 0 <= i < w1.path.len() implies w1.entered.contains(
        #[trigger] w1.path[i],
    ) && (w1.depth)(w1.path[i]) == i by {
        if i < w0.path.len() {
            assert(w0.path[i] == w1.path[i]);
            assert(w0.entered.contains(w0.path[i]));
        }
    }
    assert forall|i: int| 1 <= i < w1.path.len() implies parent_of(g1, #[trigger] w1.path[i])
        == w1.path[i - 1] by {
        if i < w0.path.len() {
            assert(w0.path[i] == w1.path[i]);
            assert(w0.entered.contains(w0.path[i]));
            assert(parent_of(g0, w0.path[i]) == w0.path[i - 1]);
        }
    }
    // the walls
    crate::spanning::lemma_cell_count();
    assert(m1.cleared_walls() == m0.cleared_walls() + 1) by {
        match d {
            Direction::Top => {
                lemma_wall_down(m0.bitmap_top@, current);
            },
            Direction::Bottom => {
                lemma_wall_down(m0.bitmap_top@, next);
            },
            Direction::Left => {
                lemma_wall_down(m0.bitmap_left@, current);
            },
            Direction::Right => {
                lemma_wall_down(m0.bitmap_left@, next);
            },
        }
    }
    vstd::set_lib::lemma_len_subset(w1.entered, BitMap::all_cells());
    // the cells
    assert forall|p: Point| p.in_grid() implies #[trigger] cell_ok(g1, m1, w1, next, p) by {
        assert(cell_ok(g0, m0, w0, current, p));
        if p.y > 0 {
            assert(cell_ok(g0, m0, w0, current, p.step(Direction::Top)));
        }
        if p.x > 0 {
            assert(cell_ok(g0, m0, w0, current, p.step(Direction::Left)));
        }
        if p != next && w0.entered.contains(p) && incoming_of(g0.at(p)) != 0 {
            assert(parent_of(g1, p) == parent_of(g0, p));
            assert(parent_of(g0, p) != next);
        }
        assert(on_path(w1, p) <==> (on_path(w0, p) || p == next)) by {
            if p != next && w0.entered.contains(p) {
                if 0 <= (w0.depth)(p) < w0.path.len() {
                    assert(w0.path[(w0.depth)(p)] == w1.path[(w0.depth)(p)]);
                }
            }
        }
    }
    w1
}

/// A step back from a cell with no free side keeps the walk in order and
/// leaves less to do.
proof fn lemma_backtrack(
    g0: &MazeGenerator,
    maze: &Maze,
    w0: Walk,
    current: Point,
    g1: &MazeGenerator,
) -> (w1: Walk)
    requires
        walking(g0, maze, w0, current),
        forall|d: Direction| !#[trigger] g0.is_free(current, d),
        incoming_of(g0.at(current)) != 0,
        forall|p: Point| p.in_grid() ==> #[trigger] g1.at(p) == g0.at(p),
        g1.left_behind() == g0.left_behind().insert(current),
    ensures
        walking(g1, maze, w1, parent_of(g0, current)),
        0 < work_left(w1) < work_left(w0),
{
    let w1 = Walk { entered: w0.entered, depth: w0.depth, path: w0.path.drop_last() };
    let back = parent_of(g0, current);
    assert(cell_ok(g0, maze, w0, current, current));
    assert(w0.entered.contains(current));
    assert(current != maze.start);
    assert(w0.path.len() >= 2);
    assert(parent_of(g0, w0.path[w0.path.len() - 1]) == w0.path[w0.path.len() - 1 - 1]);
    assert(back == w1.path.last());
    assert(back != current);
    assert forall|i: int| 0 <= i < w1.path.len() implies w1.entered.contains(
        #[trigger] w1.path[i],
    ) && (w1.depth)(w1.path[i]) == i by {
        assert(w0.path[i] == w1.path[i]);
        assert(w0.entered.contains(w0.path[i]));
    }
    assert forall|i: int| 1 <= i < w1.path.len() implies parent_of(g1, #[trigger] w1.path[i])
        == w1.path[i - 1] by {
        assert(w0.path[i] == w1.path[i]);
        assert(w0.entered.contains(w0.path[i]));
        assert(parent_of(g0, w0.path[i]) == w0.path[i - 1]);
    }
    crate::spanning::lemma_cell_count();
    vstd::set_lib::lemma_len_subset(w1.entered, BitMap::all_cells());
    assert forall|p: Point| p.in_grid() implies #[trigger] cell_ok(g1, maze, w1, back, p) by {
        assert(cell_ok(g0, maze, w0, current, p));
        if p.y > 0 {
            assert(g1.at(p.step(Direction::Top)) == g0.at(p.step(Direction::Top)));
        }
        if p.x > 0 {
            assert(g1.at(p.step(Direction::Left)) == g0.at(p.step(Direction::Left)));
        }
        if p == current {
            lemma_dead_end(g0, maze, w0, current, Direction::Left);
            lemma_dead_end(g0, maze, w0, current, Direction::Right);
            lemma_dead_end(g0, maze, w0, current, Direction::Top);
            lemma_dead_end(g0, maze, w0, current, Direction::Bottom);
        } else if w0.entered.contains(p) {
            if 0 <= (w0.depth)(p) < w1.path.len() {
                assert(w0.path[(w0.depth)(p)] == w1.path[(w0.depth)(p)]);
            }
            assert(on_path(w1, p) == on_path(w0, p));
        }
    }
    w1
}

/// A walk that is back in the root with no free side has carved a perfect
/// maze.
proof fn lemma_finish(gen: &MazeGenerator, maze: &Maze, w: Walk, current: Point)
    requires
        walking(gen, maze, w, current),
        forall|d: Direction| !#[trigger] gen.is_free(current, d),
        incoming_of(gen.at(current)) == 0,
    ensures
        maze.is_perfect(),
        maze.is_enclosed(),
{
    let root = maze.start;
    lemma_never_entered();
    assert forall|p: Point| p.in_grid() && p.y == 0 implies #[trigger] maze.bitmap_top@.contains(
        p,
    ) by {
        assert(cell_ok(gen, maze, w, current, p));
    }
    assert forall|p: Point| p.in_grid() && p.x == 0 implies #[trigger] maze.bitmap_left@.contains(
        p,
    ) by {
        assert(cell_ok(gen, maze, w, current, p));
    }
    assert(cell_ok(gen, maze, w, current, current));
    assert(w.path.len() == 1);
    // every cell has been entered
    assert forall|p: Point, d: Direction|
        w.entered.contains(p) && #[trigger] p.has_neighbor(d) implies w.entered.contains(
        p.step(d),
    ) by {
        if p == root {
            lemma_dead_end(gen, maze, w, current, d);
        } else {
            assert(cell_ok(gen, maze, w, current, p));
            assert(!on_path(w, p));
            match d {
                Direction::Left => {
                    assert(side_done(w, p, Direction::Left));
                },
                Direction::Right => {
                    assert(side_done(w, p, Direction::Right));
                },
                Direction::Top => {
                    assert(side_done(w, p, Direction::Top));
                },
                Direction::Bottom => {
                    assert(side_done(w, p, Direction::Bottom));
                },
            }
        }
    }
    assert forall|p: Point| p.in_grid() implies w.entered.contains(p) by {
        crate::spanning::lemma_fills_grid(w.entered, root, p);
    }
    assert(w.entered =~= BitMap::all_cells());
    crate::spanning::lemma_cell_count();
    // the passages are the links between a cell and the one it was entered from
    let parent = |p: Point| parent_of(gen, p);
    assert forall|p: Point| p.in_grid() && p != root implies maze.passage(p, #[trigger] parent(p))
        && (w.depth)(p) == (w.depth)(parent(p)) + 1 by {
        assert(cell_ok(gen, maze, w, current, p));
        let d = side_of(incoming_of(gen.at(p)));
        assert(cell_ok(gen, maze, w, current, p.step(d)));
        assert(maze.open_toward(p, d));
    }
    assert forall|a: Point, b: Point| #[trigger] maze.passage(a, b) implies (a != root && parent(a)
        == b) || (b != root && parent(b) == a) by {
        crate::spanning::lemma_passage_both_ways(maze, a, b);
        let d = choose|d: Direction| #[trigger] maze.open_toward(a, d) && a.step(d) == b;
        assert(cell_ok(gen, maze, w, current, a));
        assert(cell_ok(gen, maze, w, current, b));
    }
    assert forall|p: Point| p.in_grid() implies #[trigger] (w.depth)(p) >= 0 by {
        assert(cell_ok(gen, maze, w, current, p));
    }
    crate::spanning::lemma_tree_is_perfect(maze, parent, w.depth);
}

impl MazeGenerator {
    /// Carves a perfect maze by a random walk that begins in `root`. The
    /// walls are raised first and the records of an earlier walk cleared.
    /// The walk steps into a free neighbor, taking down the wall between,
    /// for as long as there is one, and steps back to where it entered the
    /// cell when there is none; it ends back in the root. The maze starts
    /// in `root` and keeps its end.
    pub fn generate_from(&mut self, maze: &mut Maze, root: Point)
        requires
            root.in_grid(),
        ensures
            final(maze).is_perfect(),
            final(maze).is_enclosed(),
            final(maze).start == root,
            final(maze).end == old(maze).end,
    {
        self.state = [[0; COLUMNS]; ROWS];
        self.visited = BitMap::new(false);
        maze.bitmap_top = BitMap::new(true);
        maze.bitmap_left = BitMap::new(true);
        maze.start = root;
        let mut current = maze.start;
        let ghost mut w = lemma_start(self, maze);
        loop
            invariant_except_break
                walking(self, maze, w, current),
            invariant
                maze.start == root,
                maze.end == old(maze).end,
            ensures
                maze.is_perfect(),
                maze.is_enclosed(),
                maze.start == root,
                maze.end == old(maze).end,
            decreases work_left(w),
        {
            let ghost g0 = *self;
            let ghost m0 = *maze;
            let available: u8 = self.free_edges(current);
            if available == 0 {
                // backtrace
                let incoming_edges: u8 = self.state[current.y as usize][current.x as usize] >> 4;
                self.visited.set(current, true);
                if incoming_edges == 0 {
                    // no incoming edge: this is where the walk began
                    proof {
                        lemma_finish(&g0, maze, w, current);
                    }
                    break ;
                }
                proof {
                    assert(cell_ok(&g0, maze, w, current, current));
                    w = lemma_backtrack(&g0, maze, w, current, self);
                }
                current = current.dir(bin_to_dir(incoming_edges));
            } else {
                // determine the direction to go
                let dir_to_go: u8 = self.pick_edge(available);
                let direction = bin_to_dir(dir_to_go);
                let ghost picked = *self;
                proof {
                    assert(mask_has(available, direction));
                    assert(cell_ok(&g0, maze, w, current, current.step(direction)));
                    assert(picked.at(current.step(direction)) == 0);
                    assert(picked.at(current) == g0.at(current));
                }
                maze.break_wall(current, direction);
                self.visited.set(current, true);
                let current_state: u8 = self.state[current.y as usize][current.x as usize];
                self.state[current.y as usize][current.x as usize] = current_state | dir_to_go;
                let next = current.dir(direction);
                let opposite_dir: u8 = bin_dir_opposite(dir_to_go);
                let next_state: u8 = self.state[next.y as usize][next.x as usize];
                // set the incoming edges
                self.state[next.y as usize][next.x as usize] = next_state | (opposite_dir << 4);
                proof {
                    assert forall|p: Point|
                        p.in_grid() && p != current && p != next implies #[trigger] self.at(p)
                        == g0.at(p) by {
                        assert(picked.at(p) == g0.at(p));
                    }
                    w = lemma_forward(&g0, &m0, w, current, self, maze, dir_to_go);
                }
                current = next;
            }
        }
    }

    /// Carves a perfect maze by a random walk that begins in a cell drawn
    /// at random, where the maze then starts. The maze keeps its end.
    pub fn generate(&mut self, maze: &mut Maze)
        ensures
            final(maze).is_perfect(),
            final(maze).is_enclosed(),
            final(maze).end == old(maze).end,
    {
        let x: u8 = draw(&mut self.rng);
        let y: u8 = draw(&mut self.rng);
        self.generate_from(maze, choose_root(x, y));
    }
}

} // verus!
