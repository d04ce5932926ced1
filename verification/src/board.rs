//! The 10x10 board and its cell-level operations.

use vstd::prelude::*;
use crate::game::Error;

verus! {

/// Cell code of open water.
pub const EMPTY: char = 'e';

/// Cell code of an intact ship segment.
pub const SHIP: char = 's';

/// Cell code of a ship segment that was hit.
pub const HIT: char = 'h';

/// Cell code of a shot that found water.
pub const MISS: char = 'm';

/// The mathematical model of a board: ten rows of ten cell codes.
pub type Grid = Seq<Seq<char>>;

/// A grid has the shape of a board.
pub open spec fn well_shaped(g: Grid) -> bool {
    &&& g.len() == 10
    &&& forall|i: int| 0 <= i < 10 ==> (#[trigger] g[i]).len() == 10
}

/// Both coordinates lie on the board.
pub open spec fn on_board(i: int, j: int) -> bool {
    0 <= i < 10 && 0 <= j < 10
}

/// A player's private board, one cell code per square.
#[derive(Clone, Copy, Debug, PartialEq, Eq)]
pub struct Board(pub [[char; 10]; 10]);

impl View for Board {
    type V = Grid;

    open spec fn view(&self) -> Grid {
        Seq::new(10, |i: int| self.0@[i]@)
    }
}

impl Board {
    /// The cell code at row `i`, column `j`.
    pub fn get(&self, i: usize, j: usize) -> (c: char)
        requires
            i < 10,
            j < 10,
        ensures
            c == self@[i as int][j as int],
    {
        self.0[i][j]
    }

    /// Overwrites the cell at row `i`, column `j`.
    pub fn put(&mut self, i: usize, j: usize, c: char)
        requires
            i < 10,
            j < 10,
        ensures
            final(self)@ == old(self)@.update(i as int, old(self)@[i as int].update(j as int, c)),
    {
        self.0[i][j] = c;
    }

    /// A board of open water.
    pub fn empty() -> (b: Board)
        ensures
            forall|i: int, j: int| on_board(i, j) ==> b@[i][j] == EMPTY,
    {
        Board([[EMPTY; 10]; 10])
    }

    /// The game is over for this board's owner: no intact ship cell is left.
    pub fn is_game_over(&self) -> (over: bool)
        ensures
            over == fleet_destroyed(self@),
    {
        let mut i: usize = 0;
        while i < 10
            invariant
                i <= 10,
                forall|a: int, b: int| 0 <= a < i && 0 <= b < 10 ==> self@[a][b] != SHIP,
            decreases 10 - i,
        {
            let mut j: usize = 0;
            while j < 10
                invariant
                    i < 10,
                    j <= 10,
                    forall|a: int, b: int| 0 <= a < i && 0 <= b < 10 ==> self@[a][b] != SHIP,
                    forall|b: int| 0 <= b < j ==> self@[i as int][b] != SHIP,
                decreases 10 - j,
            {
                if self.0[i][j] == SHIP {
                    assert(on_board(i as int, j as int));
                    return false;
                }
                j += 1;
            }
            i += 1;
        }
        true
    }

    /// Resolves a shot at `at`. An intact ship cell becomes a hit and the
    /// result is `true`; open water becomes a miss and the result is `false`.
    /// A square off the board, or one that was attacked before, is an invalid
    /// move and leaves the board as it was.
    pub fn apply_attack(&mut self, at: (usize, usize)) -> (r: Result<bool, Error>)
        ensures
            match attack_result(old(self)@, at.0 as int, at.1 as int) {
                Some(hit) => r == Ok::<bool, Error>(hit) && final(self)@ == attacked(
                    old(self)@,
                    at.0 as int,
                    at.1 as int,
                ),
                None => r matches Err(Error::InvalidMove) && final(self)@ == old(self)@,
            },
    {
        let i: usize = at.0;
        let j: usize = at.1;
        if i >= 10 || j >= 10 {
            return Err(Error::InvalidMove);
        }
        let c = self.0[i][j];
        if c == SHIP {
            self.0[i][j] = HIT;
            assert(self@ =~= attacked(old(self)@, i as int, j as int));
            Ok(true)
        } else if c == EMPTY {
            self.0[i][j] = MISS;
            assert(self@ =~= attacked(old(self)@, i as int, j as int));
            Ok(false)
        } else {
            Err(Error::InvalidMove)
        }
    }

    /// Whether a run of `length` cells anchored at row `x`, column `y` would
    /// touch anything already on the board: some square of the run, or of the
    /// one-square margin around it, is not open water. The run extends along
    /// the row when `dir` is set and down the column otherwise.
    pub fn is_overlapping(&self, x: i32, y: i32, length: i32, dir: bool) -> (r: bool)
        ensures
            r <==> crowded(self@, x as int, y as int, length as int, dir),
    {
        let mut i: i64 = -1;
        while i < 2
            invariant
                -1 <= i <= 2,
                forall|a: int, b: int|
                    -1 <= a < i && -1 <= b <= length ==> !occupied(
                        self@,
                        #[trigger] along(x as int, y as int, dir, a, b),
                    ),
            decreases 2 - i,
        {
            let mut j: i64 = -1;
            while j <= length as i64
                invariant
                    -1 <= i < 2,
                    -1 <= j,
                    j <= length + 1 || j == -1,
                    forall|a: int, b: int|
                        -1 <= a < i && -1 <= b <= length ==> !occupied(
                            self@,
                            #[trigger] along(x as int, y as int, dir, a, b),
                        ),
                    forall|b: int|
                        -1 <= b < j ==> !occupied(
                            self@,
                            #[trigger] along(x as int, y as int, dir, i as int, b),
                        ),
                decreases length + 1 - j,
            {
                let tx: i64 = if dir {
                    x as i64 + i
                } else {
                    x as i64 + j
                };
                let ty: i64 = if dir {
                    y as i64 + j
                } else {
                    y as i64 + i
                };
                if 0 <= tx && tx < 10 && 0 <= ty && ty < 10 {
                    if self.0[tx as usize][ty as usize] != EMPTY {
                        proof {
                            let c = along(x as int, y as int, dir, i as int, j as int);
                            assert(occupied(self@, c));
                            assert(in_margin(x as int, y as int, length as int, dir, c));
                        }
                        return true;
                    }
                }
                j += 1;
            }
            i += 1;
        }
        proof {
            assert forall|c: (int, int)|
                in_margin(x as int, y as int, length as int, dir, c) implies !occupied(
                self@,
                c,
            ) by {
                let a = if dir {
                    c.0 - x
                } else {
                    c.1 - y
                };
                let b = if dir {
                    c.1 - y
                } else {
                    c.0 - x
                };
                assert(c == along(x as int, y as int, dir, a, b));
            }
        }
        false
    }
}

/// The model of every board has the shape of a board.
pub proof fn lemma_board_well_shaped(b: Board)
    ensures
        well_shaped(b@),
{
}

/// No intact ship cell is left on the grid.
pub open spec fn fleet_destroyed(g: Grid) -> bool {
    forall|i: int, j: int| on_board(i, j) ==> g[i][j] != SHIP
}

/// What a shot at row `i`, column `j` finds: `Some(true)` on an intact ship
/// cell, `Some(false)` on open water, `None` where no shot is allowed.
pub open spec fn attack_result(g: Grid, i: int, j: int) -> Option<bool> {
    if on_board(i, j) && g[i][j] == SHIP {
        Some(true)
    } else if on_board(i, j) && g[i][j] == EMPTY {
        Some(false)
    } else {
        None
    }
}

/// The grid after an allowed shot at row `i`, column `j`.
pub open spec fn attacked(g: Grid, i: int, j: int) -> Grid {
    g.update(i, g[i].update(j, if g[i][j] == SHIP { HIT } else { MISS }))
}

/// A square that was attacked before admits no further shot.
pub proof fn lemma_resolved_square_admits_no_shot(g: Grid, i: int, j: int)
    requires
        on_board(i, j),
        g[i][j] == HIT || g[i][j] == MISS,
    ensures
        attack_result(g, i, j) is None,
{
}

/// The square lies on the board and is not open water.
pub open spec fn occupied(g: Grid, c: (int, int)) -> bool {
    on_board(c.0, c.1) && g[c.0][c.1] != EMPTY
}

/// The square `a` steps across and `b` steps along a run anchored at
/// (`x`, `y`).
spec fn along(x: int, y: int, dir: bool, a: int, b: int) -> (int, int) {
    if dir {
        (x + a, y + b)
    } else {
        (x + b, y + a)
    }
}

/// The square belongs to the run anchored at (`x`, `y`) or to the margin of
/// one square around it.
pub open spec fn in_margin(x: int, y: int, length: int, dir: bool, c: (int, int)) -> bool {
    if dir {
        x - 1 <= c.0 <= x + 1 && y - 1 <= c.1 <= y + length
    } else {
        x - 1 <= c.0 <= x + length && y - 1 <= c.1 <= y + 1
    }
}

/// Something on the board lies in the run's margin.
pub open spec fn crowded(g: Grid, x: int, y: int, length: int, dir: bool) -> bool {
    exists|c: (int, int)| in_margin(x, y, length, dir, c) && #[trigger] occupied(g, c)
}

} // verus!
