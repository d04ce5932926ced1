//! The fleet and its random placement: five straight runs that keep clear of
//! each other.

use vstd::prelude::*;
use crate::board::{
    crowded, in_margin, occupied, on_board, well_shaped, Board, Grid, EMPTY, SHIP,
};
use crate::random::{random_in, random_ratio};

verus! {

/// The lengths of the ships, in the order in which they are placed.
pub const SHIPS: [i32; 5] = [5, 4, 3, 3, 2];

/// Random draws tried for one ship before the squares are searched in order.
pub const DRAW_LIMIT: u32 = 1000;

/// A straight run of ship cells: `length` squares from the anchor
/// (`x`, `y`), along the row if `dir` is set and down the column otherwise.
pub struct Run {
    pub x: int,
    pub y: int,
    pub length: int,
    pub dir: bool,
}

/// The lengths of the fleet as a sequence.
pub open spec fn fleet_lengths() -> Seq<int> {
    seq![5, 4, 3, 3, 2]
}

/// Last row that the run reaches.
pub open spec fn last_row(r: Run) -> int {
    if r.dir {
        r.x
    } else {
        r.x + r.length - 1
    }
}

/// Last column that the run reaches.
pub open spec fn last_col(r: Run) -> int {
    if r.dir {
        r.y + r.length - 1
    } else {
        r.y
    }
}

/// The square is one of the run's.
pub open spec fn covers(r: Run, c: (int, int)) -> bool {
    r.x <= c.0 <= last_row(r) && r.y <= c.1 <= last_col(r)
}

/// The run has at least one square and lies on the board.
pub open spec fn fits(r: Run) -> bool {
    r.length >= 1 && 0 <= r.x && 0 <= r.y && last_row(r) < 10 && last_col(r) < 10
}

/// The runs keep clear of each other: a row or a column lies between them.
pub open spec fn apart(a: Run, b: Run) -> bool {
    ||| last_row(a) + 1 < b.x
    ||| last_row(b) + 1 < a.x
    ||| last_col(a) + 1 < b.y
    ||| last_col(b) + 1 < a.y
}

/// Two squares are the same or neighbours in one of the eight directions.
pub open spec fn touching(c: (int, int), d: (int, int)) -> bool {
    c.0 - 1 <= d.0 <= c.0 + 1 && c.1 - 1 <= d.1 <= c.1 + 1
}

/// Some run of the list covers the square.
pub open spec fn covered(runs: Seq<Run>, c: (int, int)) -> bool {
    exists|k: int| 0 <= k < runs.len() && covers(#[trigger] runs[k], c)
}

/// The grid shows exactly the runs of the list: they lie on the board and
/// keep clear of each other, their squares are ship cells and all others are
/// open water.
pub open spec fn laid_out(g: Grid, runs: Seq<Run>) -> bool {
    &&& forall|k: int| 0 <= k < runs.len() ==> fits(#[trigger] runs[k])
    &&& forall|a: int, b: int|
        0 <= a < b < runs.len() ==> apart(#[trigger] runs[a], #[trigger] runs[b])
    &&& forall|c: (int, int)|
        on_board(c.0, c.1) ==> #[trigger] g[c.0][c.1] == if covered(runs, c) {
            SHIP
        } else {
            EMPTY
        }
}

/// The runs have the lengths of the first ships of the fleet.
pub open spec fn fleet_prefix(runs: Seq<Run>) -> bool {
    &&& runs.len() <= 5
    &&& forall|k: int| 0 <= k < runs.len() ==> (#[trigger] runs[k]).length == fleet_lengths()[k]
}

/// The grid holds a complete fleet: five runs of the lengths 5, 4, 3, 3 and
/// 2, on the board and clear of each other, and nothing else.
pub open spec fn is_fleet(g: Grid) -> bool {
    exists|runs: Seq<Run>| runs.len() == 5 && fleet_prefix(runs) && #[trigger] laid_out(g, runs)
}

/// A run of the given length and orientation anchored at (`x`, `y`) lies on
/// the board clear of everything on it.
pub open spec fn free_place(g: Grid, x: int, y: int, length: int, dir: bool) -> bool {
    fits(Run { x: x, y: y, length: length, dir: dir }) && !crowded(g, x, y, length, dir)
}

/// The grid with the squares of the run turned into ship cells.
pub open spec fn with_run(g: Grid, r: Run) -> Grid {
    Seq::new(10, |a: int| Seq::new(10, |b: int| if covers(r, (a, b)) { SHIP } else { g[a][b] }))
}

/// Runs that are apart have no two squares that touch, not even at a corner.
pub proof fn lemma_apart_no_touch(a: Run, b: Run, c: (int, int), d: (int, int))
    requires
        apart(a, b),
        covers(a, c),
        covers(b, d),
    ensures
        !touching(c, d),
{
}

/// The squares of a fleet's runs lie on the board.
pub proof fn lemma_fits_on_board(r: Run, c: (int, int))
    requires
        fits(r),
        covers(r, c),
    ensures
        on_board(c.0, c.1),
{
}

/// A run that fits where nothing is near extends the layout.
pub proof fn lemma_layout_grows(g: Grid, runs: Seq<Run>, r: Run)
    requires
        laid_out(g, runs),
        fits(r),
        !crowded(g, r.x, r.y, r.length, r.dir),
    ensures
        laid_out(with_run(g, r), runs.push(r)),
{
    let more = runs.push(r);
    let h = with_run(g, r);
    assert forall|a: int, b: int| 0 <= a < b < more.len() implies apart(
        #[trigger] more[a],
        #[trigger] more[b],
    ) by {
        if b < runs.len() {
            assert(more[a] == runs[a] && more[b] == runs[b]);
        } else {
            let s = runs[a];
            assert(more[a] == s && more[b] == r);
            assert(fits(s));
            if !apart(s, r) {
                let c = (
                    if s.x > r.x - 1 {
                        s.x
                    } else {
                        r.x - 1
                    },
                    if s.y > r.y - 1 {
                        s.y
                    } else {
                        r.y - 1
                    },
                );
                assert(covers(s, c));
                assert(covered(runs, c));
                assert(on_board(c.0, c.1));
                assert(g[c.0][c.1] == SHIP);
                assert(in_margin(r.x, r.y, r.length, r.dir, c));
                assert(occupied(g, c));
            }
        }
    }
    assert forall|k: int| 0 <= k < more.len() implies fits(#[trigger] more[k]) by {
        if k < runs.len() {
            assert(more[k] == runs[k]);
        }
    }
    assert forall|c: (int, int)| on_board(c.0, c.1) implies #[trigger] h[c.0][c.1] == if covered(
        more,
        c,
    ) {
        SHIP
    } else {
        EMPTY
    } by {
        if covers(r, c) {
            assert(covers(more[runs.len() as int], c));
        } else if covered(runs, c) {
            let k = choose|k: int| 0 <= k < runs.len() && covers(#[trigger] runs[k], c);
            assert(covers(more[k], c));
        } else {
            if covered(more, c) {
                let k = choose|k: int| 0 <= k < more.len() && covers(#[trigger] more[k], c);
                if k < runs.len() {
                    assert(more[k] == runs[k]);
                }
            }
        }
        assert(g[c.0][c.1] == if covered(runs, c) { SHIP } else { EMPTY });
    }
}

/// What the run at position `k` adds to a block, nothing if the list is
/// shorter.
#[verifier::opaque]
spec fn hits_at(runs: Seq<Run>, k: int, rows: (int, int), cols: (int, int)) -> int {
    if k < runs.len() {
        hits(runs[k], rows, cols)
    } else {
        0
    }
}

/// How many of the first four runs reach the block.
#[verifier::opaque]
spec fn block_total(runs: Seq<Run>, rows: (int, int), cols: (int, int)) -> int {
    hits_at(runs, 0, rows, cols) + hits_at(runs, 1, rows, cols) + hits_at(runs, 2, rows, cols)
        + hits_at(runs, 3, rows, cols)
}

/// A block that no run adds to is free, and every block's total is at least 0.
proof fn lemma_block_total(runs: Seq<Run>, rows: (int, int), cols: (int, int))
    requires
        runs.len() <= 4,
    ensures
        block_total(runs, rows, cols) >= 0,
        block_total(runs, rows, cols) == 0 ==> block_free(runs, rows, cols),
        hits_at(runs, 0, rows, cols) >= 0,
        hits_at(runs, 1, rows, cols) >= 0,
        hits_at(runs, 2, rows, cols) >= 0,
        hits_at(runs, 3, rows, cols) >= 0,
{
    reveal(block_total);
    reveal(hits_at);
    reveal(hits);
    if block_total(runs, rows, cols) == 0 {
        assert forall|k: int| 0 <= k < runs.len() implies hits(#[trigger] runs[k], rows, cols)
            == 0 by {
            assert(k == 0 || k == 1 || k == 2 || k == 3);
        }
    }
}

/// Runs that reach fewer than 8 blocks between them leave one block free.
proof fn lemma_wide_block_free(runs: Seq<Run>)
    requires
        runs.len() <= 4,
        wide_load_at(runs, 0) + wide_load_at(runs, 1) + wide_load_at(runs, 2)
            + wide_load_at(runs, 3) < 8,
    ensures
        exists|i: int, j: int|
            0 <= i < 4 && 0 <= j < 2 && #[trigger] block_free(runs, row_band(i), wide_band(j)),
{
    lemma_block_total(runs, row_band(0), wide_band(0));
    lemma_block_total(runs, row_band(0), wide_band(1));
    lemma_block_total(runs, row_band(1), wide_band(0));
    lemma_block_total(runs, row_band(1), wide_band(1));
    lemma_block_total(runs, row_band(2), wide_band(0));
    lemma_block_total(runs, row_band(2), wide_band(1));
    lemma_block_total(runs, row_band(3), wide_band(0));
    lemma_block_total(runs, row_band(3), wide_band(1));
    assert(block_free(runs, row_band(0), wide_band(0))
        || block_free(runs, row_band(0), wide_band(1))
        || block_free(runs, row_band(1), wide_band(0))
        || block_free(runs, row_band(1), wide_band(1))
        || block_free(runs, row_band(2), wide_band(0))
        || block_free(runs, row_band(2), wide_band(1))
        || block_free(runs, row_band(3), wide_band(0))
        || block_free(runs, row_band(3), wide_band(1))) by {
        reveal(block_total);
        reveal(hits_at);
    }
}

/// Runs that reach fewer than 12 blocks between them leave one block free.
proof fn lemma_narrow_block_free(runs: Seq<Run>)
    requires
        runs.len() <= 4,
        narrow_load_at(runs, 0) + narrow_load_at(runs, 1) + narrow_load_at(runs, 2)
            + narrow_load_at(runs, 3) < 12,
    ensures
        exists|i: int, j: int|
            0 <= i < 4 && 0 <= j < 3 && #[trigger] block_free(runs, row_band(i), narrow_band(j)),
{
    lemma_block_total(runs, row_band(0), narrow_band(0));
    lemma_block_total(runs, row_band(0), narrow_band(1));
    lemma_block_total(runs, row_band(0), narrow_band(2));
    lemma_block_total(runs, row_band(1), narrow_band(0));
    lemma_block_total(runs, row_band(1), narrow_band(1));
    lemma_block_total(runs, row_band(1), narrow_band(2));
    lemma_block_total(runs, row_band(2), narrow_band(0));
    lemma_block_total(runs, row_band(2), narrow_band(1));
    lemma_block_total(runs, row_band(2), narrow_band(2));
    lemma_block_total(runs, row_band(3), narrow_band(0));
    lemma_block_total(runs, row_band(3), narrow_band(1));
    lemma_block_total(runs, row_band(3), narrow_band(2));
    assert(block_free(runs, row_band(0), narrow_band(0))
        || block_free(runs, row_band(0), narrow_band(1))
        || block_free(runs, row_band(0), narrow_band(2))
        || block_free(runs, row_band(1), narrow_band(0))
        || block_free(runs, row_band(1), narrow_band(1))
        || block_free(runs, row_band(1), narrow_band(2))
        || block_free(runs, row_band(2), narrow_band(0))
        || block_free(runs, row_band(2), narrow_band(1))
        || block_free(runs, row_band(2), narrow_band(2))
        || block_free(runs, row_band(3), narrow_band(0))
        || block_free(runs, row_band(3), narrow_band(1))
        || block_free(runs, row_band(3), narrow_band(2))) by {
        reveal(block_total);
        reveal(hits_at);
    }
}

/// The rows of one of the four horizontal bands that divide the board.
spec fn row_band(i: int) -> (int, int) {
    if i == 0 {
        (0, 1)
    } else if i == 1 {
        (2, 4)
    } else if i == 2 {
        (5, 7)
    } else {
        (8, 9)
    }
}

/// The columns of one of the two halves of the board.
spec fn wide_band(j: int) -> (int, int) {
    if j == 0 {
        (0, 4)
    } else {
        (5, 9)
    }
}

/// The columns of one of the three vertical bands that divide the board.
spec fn narrow_band(j: int) -> (int, int) {
    if j == 0 {
        (0, 2)
    } else if j == 1 {
        (3, 6)
    } else {
        (7, 9)
    }
}

/// 1 if the run has a square in the block of the given rows and columns,
/// else 0.
#[verifier::opaque]
spec fn hits(r: Run, rows: (int, int), cols: (int, int)) -> int {
    if r.x <= rows.1 && last_row(r) >= rows.0 && r.y <= cols.1 && last_col(r) >= cols.0 {
        1
    } else {
        0
    }
}

/// Number of blocks, out of four bands by two halves, that the run reaches.
spec fn wide_load(r: Run) -> int {
    hits(r, row_band(0), wide_band(0)) + hits(r, row_band(0), wide_band(1))
        + hits(r, row_band(1), wide_band(0)) + hits(r, row_band(1), wide_band(1))
        + hits(r, row_band(2), wide_band(0)) + hits(r, row_band(2), wide_band(1))
        + hits(r, row_band(3), wide_band(0)) + hits(r, row_band(3), wide_band(1))
}

/// Number of blocks, out of four bands by three bands, that the run reaches.
spec fn narrow_load(r: Run) -> int {
    hits(r, row_band(0), narrow_band(0)) + hits(r, row_band(0), narrow_band(1))
        + hits(r, row_band(0), narrow_band(2)) + hits(r, row_band(1), narrow_band(0))
        + hits(r, row_band(1), narrow_band(1)) + hits(r, row_band(1), narrow_band(2))
        + hits(r, row_band(2), narrow_band(0)) + hits(r, row_band(2), narrow_band(1))
        + hits(r, row_band(2), narrow_band(2)) + hits(r, row_band(3), narrow_band(0))
        + hits(r, row_band(3), narrow_band(1)) + hits(r, row_band(3), narrow_band(2))
}

/// A run of at most five squares reaches at most three blocks of either
/// division, and one of at most four squares reaches at most two.
proof fn lemma_run_load(r: Run)
    requires
        fits(r),
        r.length <= 5,
    ensures
        wide_load(r) <= 3,
        narrow_load(r) <= 3,
        r.length <= 4 ==> wide_load(r) <= 2 && narrow_load(r) <= 2,
{
    reveal(hits);
    if r.dir {
        assert(last_row(r) == r.x);
    } else {
        assert(last_col(r) == r.y);
    }
}

/// Where no run reaches a block, a run along the row whose margin stays
/// inside the block is clear of everything on the board.
proof fn lemma_free_block(
    g: Grid,
    runs: Seq<Run>,
    rows: (int, int),
    cols: (int, int),
    x: int,
    y: int,
    length: int,
)
    requires
        laid_out(g, runs),
        forall|k: int| 0 <= k < runs.len() ==> hits(#[trigger] runs[k], rows, cols) == 0,
        rows.0 <= x - 1 || (rows.0 == 0 && x == 0),
        x + 1 <= rows.1 || (rows.1 == 9 && x == 9),
        cols.0 <= y - 1 || (cols.0 == 0 && y == 0),
        y + length <= cols.1 || (cols.1 == 9 && y + length == 10),
    ensures
        !crowded(g, x, y, length, true),
{
    reveal(hits);
    if crowded(g, x, y, length, true) {
        let c = choose|c: (int, int)| in_margin(x, y, length, true, c) && #[trigger] occupied(g, c);
        assert(g[c.0][c.1] == if covered(runs, c) { SHIP } else { EMPTY });
        let k = choose|k: int| 0 <= k < runs.len() && covers(#[trigger] runs[k], c);
        assert(hits(runs[k], rows, cols) == 0);
    }
}

/// The load of the run at position `k`, nothing if the list is shorter.
spec fn wide_load_at(runs: Seq<Run>, k: int) -> int {
    if k < runs.len() {
        wide_load(runs[k])
    } else {
        0
    }
}

/// The load of the run at position `k`, nothing if the list is shorter.
spec fn narrow_load_at(runs: Seq<Run>, k: int) -> int {
    if k < runs.len() {
        narrow_load(runs[k])
    } else {
        0
    }
}

/// No run of the list reaches the block.
spec fn block_free(runs: Seq<Run>, rows: (int, int), cols: (int, int)) -> bool {
    forall|k: int| 0 <= k < runs.len() ==> hits(#[trigger] runs[k], rows, cols) == 0
}

/// While the fleet is incomplete there is room for its next ship: some run of
/// the next length fits on the board clear of every ship placed so far.
///
/// The board is cut into blocks, four bands of rows by two or three bands of
/// columns, each wide enough to hold the next ship with its margin. A ship of
/// five squares reaches at most three blocks and a shorter one at most two,
/// so the ships placed so far always reach fewer blocks than there are.
pub proof fn lemma_room_for_next(g: Grid, runs: Seq<Run>)
    requires
        laid_out(g, runs),
        fleet_prefix(runs),
        runs.len() < 5,
    ensures
        exists|x: int, y: int| #[trigger]
            free_place(g, x, y, fleet_lengths()[runs.len() as int], true),
{
    let n = runs.len() as int;
    let length = fleet_lengths()[n];
    assert(fleet_lengths()[0] == 5 && fleet_lengths()[1] == 4 && fleet_lengths()[2] == 3
        && fleet_lengths()[3] == 3 && fleet_lengths()[4] == 2);
    assert forall|k: int| 0 <= k < n implies wide_load(#[trigger] runs[k]) <= 3 && narrow_load(
        runs[k],
    ) <= 3 && (k >= 1 ==> wide_load(runs[k]) <= 2 && narrow_load(runs[k]) <= 2) by {
        assert(fits(runs[k]));
        assert(runs[k].length == fleet_lengths()[k]);
        lemma_run_load(runs[k]);
    }
    if n == 0 {
        assert(!crowded(g, 0, 0, length, true)) by {
            if crowded(g, 0, 0, length, true) {
                let c = choose|c: (int, int)|
                    in_margin(0, 0, length, true, c) && #[trigger] occupied(g, c);
                assert(g[c.0][c.1] == if covered(runs, c) { SHIP } else { EMPTY });
            }
        }
        assert(free_place(g, 0, 0, length, true));
    } else if n <= 3 {
        lemma_wide_block_free(runs);
        let (i, j) = choose|i: int, j: int|
            0 <= i < 4 && 0 <= j < 2 && #[trigger] block_free(runs, row_band(i), wide_band(j));
        let x = 3 * i;
        let y = if j == 0 {
            0
        } else {
            10 - length
        };
        lemma_free_block(g, runs, row_band(i), wide_band(j), x, y, length);
        assert(free_place(g, x, y, length, true));
    } else {
        lemma_narrow_block_free(runs);
        let (i, j) = choose|i: int, j: int|
            0 <= i < 4 && 0 <= j < 3 && #[trigger] block_free(runs, row_band(i), narrow_band(j));
        let x = 3 * i;
        let y = 4 * j;
        lemma_free_block(g, runs, row_band(i), narrow_band(j), x, y, length);
        assert(free_place(g, x, y, length, true));
    }
}

impl Board {
    /// Turns the squares of a run into ship cells.
    fn lay(&mut self, x: i32, y: i32, length: i32, dir: bool)
        requires
            fits(Run { x: x as int, y: y as int, length: length as int, dir: dir }),
        ensures
            final(self)@ == with_run(
                old(self)@,
                Run { x: x as int, y: y as int, length: length as int, dir: dir },
            ),
    {
        let ghost run = Run { x: x as int, y: y as int, length: length as int, dir: dir };
        let mut i: i32 = 0;
        while i < length
            invariant
                0 <= i <= length,
                fits(run),
                run == (Run { x: x as int, y: y as int, length: length as int, dir: dir }),
                forall|a: int, b: int|
                    on_board(a, b) ==> self@[a][b] == if covers(
                        Run { x: x as int, y: y as int, length: i as int, dir: dir },
                        (a, b),
                    ) {
                        SHIP
                    } else {
                        old(self)@[a][b]
                    },
            decreases length - i,
        {
            let tx: i32 = if dir {
                x
            } else {
                x + i
            };
            let ty: i32 = if dir {
                y + i
            } else {
                y
            };
            self.put(tx as usize, ty as usize, SHIP);
            i += 1;
        }
        proof {
            let target = with_run(old(self)@, run);
            assert(well_shaped(self@));
            assert forall|a: int, b: int| 0 <= a < 10 && 0 <= b < 10 implies self@[a][b]
                == #[trigger] target[a][b] by {
                assert(on_board(a, b));
            }
            assert(self@ =~~= target);
        }
    }

    /// The first anchor in row-major order at which a run of the given length
    /// and orientation lies on the board clear of everything on it, if there
    /// is one.
    pub fn first_free_place(&self, length: i32, dir: bool) -> (r: Option<(i32, i32)>)
        requires
            1 <= length <= 10,
        ensures
            match r {
                Some(p) => free_place(self@, p.0 as int, p.1 as int, length as int, dir)
                    && forall|x: int, y: int|
                    x < p.0 || (x == p.0 && y < p.1) ==> !#[trigger] free_place(
                        self@,
                        x,
                        y,
                        length as int,
                        dir,
                    ),
                None => forall|x: int, y: int|
                    !#[trigger] free_place(self@, x, y, length as int, dir),
            },
    {
        let rows: i32 = if dir {
            10
        } else {
            11 - length
        };
        let cols: i32 = if dir {
            11 - length
        } else {
            10
        };
        let mut x: i32 = 0;
        while x < rows
            invariant
                0 <= x <= rows,
                1 <= length <= 10,
                rows == (if dir { 10 } else { 11 - length }),
                cols == (if dir { 11 - length } else { 10 }),
                forall|a: int, b: int|
                    a < x ==> !#[trigger] free_place(self@, a, b, length as int, dir),
            decreases rows - x,
        {
            let mut y: i32 = 0;
            while y < cols
                invariant
                    0 <= x < rows,
                    0 <= y <= cols,
                    1 <= length <= 10,
                    rows == (if dir { 10 } else { 11 - length }),
                    cols == (if dir { 11 - length } else { 10 }),
                    forall|a: int, b: int|
                        a < x ==> !#[trigger] free_place(self@, a, b, length as int, dir),
                    forall|b: int|
                        b < y ==> !#[trigger] free_place(self@, x as int, b, length as int, dir),
                decreases cols - y,
            {
                if !self.is_overlapping(x, y, length, dir) {
                    return Some((x, y));
                }
                y += 1;
            }
            x += 1;
        }
        None
    }

    /// Places the next ship of the fleet. Anchors and orientations are drawn
    /// at random until one is clear of the ships placed before; after
    /// `DRAW_LIMIT` failed draws the ship takes the first free place along a
    /// row, which always exists.
    fn place_ship(&mut self, length: i32, Ghost(runs): Ghost<Seq<Run>>) -> (r: Ghost<Run>)
        requires
            laid_out(old(self)@, runs),
            fleet_prefix(runs),
            runs.len() < 5,
            length == fleet_lengths()[runs.len() as int],
        ensures
            r@.length == length,
            laid_out(final(self)@, runs.push(r@)),
    {
        assert(fleet_lengths()[0] == 5 && fleet_lengths()[1] == 4 && fleet_lengths()[2] == 3
            && fleet_lengths()[3] == 3 && fleet_lengths()[4] == 2);
        let mut tries: u32 = 0;
        while tries < DRAW_LIMIT
            invariant
                2 <= length <= 5,
                self@ == old(self)@,
                laid_out(self@, runs),
            decreases DRAW_LIMIT - tries,
        {
            let dir = random_ratio(1, 2);
            let x = random_in(0, if dir { 10 } else { 11 - length });
            let y = random_in(0, if dir { 11 - length } else { 10 });
            if !self.is_overlapping(x, y, length, dir) {
                let ghost run = Run { x: x as int, y: y as int, length: length as int, dir: dir };
                proof {
                    lemma_layout_grows(self@, runs, run);
                }
                self.lay(x, y, length, dir);
                return Ghost(run);
            }
            tries += 1;
        }
        match self.first_free_place(length, true) {
            Some(spot) => {
                let ghost run = Run {
                    x: spot.0 as int,
                    y: spot.1 as int,
                    length: length as int,
                    dir: true,
                };
                proof {
                    lemma_layout_grows(self@, runs, run);
                }
                self.lay(spot.0, spot.1, length, true);
                Ghost(run)
            },
            None => {
                proof {
                    lemma_room_for_next(self@, runs);
                    assert(false);
                }
                Ghost(Run { x: 0, y: 0, length: length as int, dir: true })
            },
        }
    }

    /// A board with a complete fleet at random positions: for each ship, from
    /// the longest to the shortest, an orientation and an anchor that keeps
    /// the run on the board are drawn until the run touches no ship placed
    /// before, not even at a corner. So that the search is certain to end, a
    /// ship that `DRAW_LIMIT` draws in a row have failed to place takes the
    /// first free place along a row.
    pub fn randomize() -> (b: Board)
        ensures
            is_fleet(b@),
    {
        let mut board = Board::empty();
        let ghost mut runs: Seq<Run> = Seq::empty();
        proof {
            assert forall|c: (int, int)| on_board(c.0, c.1) implies #[trigger] board@[c.0][c.1]
                == if covered(runs, c) {
                SHIP
            } else {
                EMPTY
            } by {}
        }
        let mut k: usize = 0;
        while k < 5
            invariant
                k <= 5,
                runs.len() == k,
                fleet_prefix(runs),
                laid_out(board@, runs),
            decreases 5 - k,
        {
            let length = SHIPS[k];
            assert(length == fleet_lengths()[k as int]);
            let placed = board.place_ship(length, Ghost(runs));
            proof {
                let more = runs.push(placed@);
                assert forall|j: int| 0 <= j < more.len() implies (#[trigger] more[j]).length
                    == fleet_lengths()[j] by {
                    if j < runs.len() {
                        assert(more[j] == runs[j]);
                    }
                }
                runs = more;
            }
            k += 1;
        }
        assert(runs.len() == 5 && fleet_prefix(runs) && laid_out(board@, runs));
        board
    }
}

} // verus!
