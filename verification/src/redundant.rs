//! The display view of a board: squares that cannot hold a ship are flagged
//! as misses, and intact ship cells can be concealed from the opponent.

use vstd::prelude::*;
use crate::board::{on_board, well_shaped, Board, Grid, EMPTY, HIT, MISS, SHIP};
use crate::sunk::{afloat, beside, hull, is_walk, linked};

verus! {

/// Two squares touch at a corner only.
pub open spec fn diagonal(a: (int, int), b: (int, int)) -> bool {
    (a.0 == b.0 + 1 || a.0 + 1 == b.0) && (a.1 == b.1 + 1 || a.1 + 1 == b.1)
}

/// The grid with the four diagonal neighbours of `c` flagged as misses.
pub open spec fn corners_flagged(g: Grid, c: (int, int)) -> Grid {
    Seq::new(10, |a: int| Seq::new(10, |b: int| if diagonal(c, (a, b)) { MISS } else { g[a][b] }))
}

/// The grid with the open water beside `c` flagged as misses.
pub open spec fn sides_flagged(g: Grid, c: (int, int)) -> Grid {
    Seq::new(
        10,
        |a: int|
            Seq::new(
                10,
                |b: int|
                    if beside(c, (a, b)) && g[a][b] == EMPTY {
                        MISS
                    } else {
                        g[a][b]
                    },
            ),
    )
}

/// One step of the scan: a hit cell flags its diagonal neighbours and, once
/// its ship is sunk, the open water beside it; any other cell changes nothing.
pub open spec fn flag_step(g: Grid, c: (int, int)) -> Grid {
    if g[c.0][c.1] == HIT {
        let cornered = corners_flagged(g, c);
        if afloat(cornered, c) {
            cornered
        } else {
            sides_flagged(cornered, c)
        }
    } else {
        g
    }
}

/// The grid after the scan has handled its first `n` squares in row-major
/// order.
pub open spec fn flagged_until(g: Grid, n: nat) -> Grid
    decreases n,
{
    if n == 0 {
        g
    } else {
        let k = (n - 1) as nat;
        flag_step(flagged_until(g, k), (k as int / 10, k as int % 10))
    }
}

/// The grid with every intact ship cell shown as open water.
pub open spec fn concealed(g: Grid) -> Grid {
    Seq::new(10, |a: int| Seq::new(10, |b: int| if g[a][b] == SHIP { EMPTY } else { g[a][b] }))
}

impl Board {
    /// Hides what the opponent must not see: intact ship cells are shown as
    /// open water.
    pub fn conceal(self) -> (r: Board)
        ensures
            r@ == concealed(self@),
    {
        let mut b = self;
        let mut i: usize = 0;
        while i < 10
            invariant
                i <= 10,
                forall|a: int, c: int|
                    0 <= a < i && 0 <= c < 10 ==> b@[a][c] == concealed(self@)[a][c],
                forall|a: int, c: int| i <= a < 10 && 0 <= c < 10 ==> b@[a][c] == self@[a][c],
            decreases 10 - i,
        {
            let mut j: usize = 0;
            while j < 10
                invariant
                    i < 10,
                    j <= 10,
                    forall|a: int, c: int|
                        0 <= a < i && 0 <= c < 10 ==> b@[a][c] == concealed(self@)[a][c],
                    forall|a: int, c: int| i < a < 10 && 0 <= c < 10 ==> b@[a][c] == self@[a][c],
                    forall|c: int| 0 <= c < j ==> b@[i as int][c] == concealed(self@)[i as int][c],
                    forall|c: int| j <= c < 10 ==> b@[i as int][c] == self@[i as int][c],
                decreases 10 - j,
            {
                if b.0[i][j] == SHIP {
                    b.put(i, j, EMPTY);
                }
                j += 1;
            }
            i += 1;
        }
        assert(b@ =~~= concealed(self@));
        b
    }

    /// Turns the diagonal neighbours of the square into misses.
    fn flag_corners(&mut self, i: usize, j: usize)
        requires
            i < 10,
            j < 10,
        ensures
            final(self)@ == corners_flagged(old(self)@, (i as int, j as int)),
    {
        if i > 0 && j > 0 {
            self.0[i - 1][j - 1] = MISS;
        }
        if i < 9 && j < 9 {
            self.0[i + 1][j + 1] = MISS;
        }
        if i < 9 && j > 0 {
            self.0[i + 1][j - 1] = MISS;
        }
        if i > 0 && j < 9 {
            self.0[i - 1][j + 1] = MISS;
        }
        assert(self@ =~~= corners_flagged(old(self)@, (i as int, j as int)));
    }

    /// Turns the open water beside the square into misses.
    fn flag_sides(&mut self, i: usize, j: usize)
        requires
            i < 10,
            j < 10,
        ensures
            final(self)@ == sides_flagged(old(self)@, (i as int, j as int)),
    {
        if i > 0 && self.0[i - 1][j] == EMPTY {
            self.0[i - 1][j] = MISS;
        }
        if i < 9 && self.0[i + 1][j] == EMPTY {
            self.0[i + 1][j] = MISS;
        }
        if j > 0 && self.0[i][j - 1] == EMPTY {
            self.0[i][j - 1] = MISS;
        }
        if j < 9 && self.0[i][j + 1] == EMPTY {
            self.0[i][j + 1] = MISS;
        }
        assert(self@ =~~= sides_flagged(old(self)@, (i as int, j as int)));
    }

    /// Flags the squares that the hits on this board rule out. The board is
    /// scanned row by row; each hit cell turns its diagonal neighbours into
    /// misses and, where its ship is sunk, the open water beside it as well.
    /// On a tidy board the order of the scan does not matter.
    pub fn mark_redundant(self) -> (r: Board)
        ensures
            r@ == flagged_until(self@, 100),
            tidy(self@) ==> r@ == flagged(self@),
    {
        let mut b = self;
        let mut i: usize = 0;
        while i < 10
            invariant
                i <= 10,
                b@ == flagged_until(self@, (10 * i) as nat),
            decreases 10 - i,
        {
            let mut j: usize = 0;
            while j < 10
                invariant
                    i < 10,
                    j <= 10,
                    b@ == flagged_until(self@, (10 * i + j) as nat),
                decreases 10 - j,
            {
                let ghost before = b@;
                let ghost c = (i as int, j as int);
                assert((10 * i + j) as int / 10 == i && (10 * i + j) as int % 10 == j);
                if b.0[i][j] == HIT {
                    b.flag_corners(i, j);
                    let report = b.has_sunk((i, j));
                    if report.is_some() {
                        b.flag_sides(i, j);
                    }
                }
                assert(b@ == flag_step(before, c));
                j += 1;
            }
            i += 1;
        }
        proof {
            if tidy(self@) {
                lemma_scan_is_flagged(self@);
            }
        }
        b
    }
}

/// The square is a hit cell of the board.
pub open spec fn is_hit(g: Grid, d: (int, int)) -> bool {
    on_board(d.0, d.1) && g[d.0][d.1] == HIT
}

/// No hit cell touches another ship cell at a corner. Every board whose ships
/// keep clear of each other is tidy.
pub open spec fn tidy(g: Grid) -> bool {
    forall|c: (int, int), d: (int, int)|
        #![trigger is_hit(g, c), hull(g, d)]
        is_hit(g, c) && diagonal(c, d) ==> !hull(g, d)
}

/// The square is a hit cell that the scan handles among its first `n`.
pub open spec fn hit_before(g: Grid, d: (int, int), n: int) -> bool {
    is_hit(g, d) && 10 * d.0 + d.1 < n
}

/// The hits among the first `n` squares of the scan rule the square out: one
/// of them touches it at a corner, or it is open water beside one whose ship
/// is sunk.
pub open spec fn ruled_out(g: Grid, c: (int, int), n: int) -> bool {
    ||| hit_before(g, (c.0 - 1, c.1 - 1), n)
    ||| hit_before(g, (c.0 - 1, c.1 + 1), n)
    ||| hit_before(g, (c.0 + 1, c.1 - 1), n)
    ||| hit_before(g, (c.0 + 1, c.1 + 1), n)
    ||| g[c.0][c.1] == EMPTY && {
        ||| hit_before(g, (c.0 - 1, c.1), n) && !afloat(g, (c.0 - 1, c.1))
        ||| hit_before(g, (c.0 + 1, c.1), n) && !afloat(g, (c.0 + 1, c.1))
        ||| hit_before(g, (c.0, c.1 - 1), n) && !afloat(g, (c.0, c.1 - 1))
        ||| hit_before(g, (c.0, c.1 + 1), n) && !afloat(g, (c.0, c.1 + 1))
    }
}

/// The grid with every square flagged that the first `n` squares rule out.
pub open spec fn flagged_by(g: Grid, n: int) -> Grid {
    Seq::new(
        10,
        |a: int| Seq::new(10, |b: int| if ruled_out(g, (a, b), n) { MISS } else { g[a][b] }),
    )
}

/// The display view of a tidy board: a square is a miss if a hit touches it
/// at a corner, or if it is open water beside a hit cell of a sunk ship;
/// every other square is as it was.
pub open spec fn flagged(g: Grid) -> Grid {
    flagged_by(g, 100)
}

/// Two grids hold ship cells, and intact ship cells, on the same squares.
pub open spec fn same_ships(g: Grid, h: Grid) -> bool {
    &&& forall|d: (int, int)| #[trigger] hull(g, d) == hull(h, d)
    &&& forall|d: (int, int)|
        on_board(d.0, d.1) ==> (#[trigger] g[d.0][d.1] == SHIP) == (h[d.0][d.1] == SHIP)
}

/// Sunk detection looks at ship cells only.
pub proof fn lemma_same_ships_same_region(g: Grid, h: Grid, a: (int, int))
    requires
        same_ships(g, h),
    ensures
        forall|c: (int, int)| #[trigger] linked(g, a, c) == linked(h, a, c),
        afloat(g, a) == afloat(h, a),
{
    assert forall|c: (int, int)| #[trigger] linked(g, a, c) == linked(h, a, c) by {
        if linked(g, a, c) {
            let p = choose|p: Seq<(int, int)>|
                #[trigger] is_walk(g, p)
                    && p[0] == a
                    && p.last() == c;
            assert forall|k: int|
                1 <= k < p.len() implies beside(p[k - 1], #[trigger] p[k]) && hull(h, p[k]) by {
                assert(hull(g, p[k]) == hull(h, p[k]));
            }
            assert(is_walk(h, p));
        }
        if linked(h, a, c) {
            let p = choose|p: Seq<(int, int)>|
                #[trigger] is_walk(h, p)
                    && p[0] == a
                    && p.last() == c;
            assert forall|k: int|
                1 <= k < p.len() implies beside(p[k - 1], #[trigger] p[k]) && hull(g, p[k]) by {
                assert(hull(g, p[k]) == hull(h, p[k]));
            }
            assert(is_walk(g, p));
        }
    }
    if afloat(g, a) {
        let c = choose|c: (int, int)|
            #[trigger] linked(g, a, c)
                && on_board(c.0, c.1)
                && g[c.0][c.1] == SHIP;
        assert(linked(h, a, c) && h[c.0][c.1] == SHIP);
    }
    if afloat(h, a) {
        let c = choose|c: (int, int)|
            #[trigger] linked(h, a, c)
                && on_board(c.0, c.1)
                && h[c.0][c.1] == SHIP;
        assert(linked(g, a, c) && g[c.0][c.1] == SHIP);
    }
}

/// On a tidy board flagging leaves every ship cell alone.
proof fn lemma_flagged_keeps_ships(g: Grid, n: int)
    requires
        well_shaped(g),
        tidy(g),
    ensures
        same_ships(g, flagged_by(g, n)),
        forall|d: (int, int)| #[trigger] is_hit(g, d) == is_hit(flagged_by(g, n), d),
{
    let h = flagged_by(g, n);
    assert forall|d: (int, int)| on_board(d.0, d.1) && hull(g, d) implies !ruled_out(g, d, n) by {
        if hit_before(g, (d.0 - 1, d.1 - 1), n) {
            assert(is_hit(g, (d.0 - 1, d.1 - 1)) && diagonal((d.0 - 1, d.1 - 1), d));
        }
        if hit_before(g, (d.0 - 1, d.1 + 1), n) {
            assert(is_hit(g, (d.0 - 1, d.1 + 1)) && diagonal((d.0 - 1, d.1 + 1), d));
        }
        if hit_before(g, (d.0 + 1, d.1 - 1), n) {
            assert(is_hit(g, (d.0 + 1, d.1 - 1)) && diagonal((d.0 + 1, d.1 - 1), d));
        }
        if hit_before(g, (d.0 + 1, d.1 + 1), n) {
            assert(is_hit(g, (d.0 + 1, d.1 + 1)) && diagonal((d.0 + 1, d.1 + 1), d));
        }
    }
    assert forall|d: (int, int)| #[trigger] hull(g, d) == hull(h, d) by {
        if on_board(d.0, d.1) {
            assert(h[d.0][d.1] == if ruled_out(g, d, n) { MISS } else { g[d.0][d.1] });
        }
    }
    assert forall|d: (int, int)|
        on_board(d.0, d.1) implies (#[trigger] g[d.0][d.1] == SHIP) == (h[d.0][d.1] == SHIP) by {
        assert(h[d.0][d.1] == if ruled_out(g, d, n) { MISS } else { g[d.0][d.1] });
        assert(hull(g, d) == hull(h, d));
    }
    assert forall|d: (int, int)| #[trigger] is_hit(g, d) == is_hit(h, d) by {
        if on_board(d.0, d.1) {
            assert(h[d.0][d.1] == if ruled_out(g, d, n) { MISS } else { g[d.0][d.1] });
            assert(hull(g, d) == hull(h, d));
        }
    }
}

/// The hits handled among the first `k + 1` squares are those among the first
/// `k`, and the square with number `k` if it is a hit.
proof fn lemma_next_hit(g: Grid, k: int, d: (int, int))
    requires
        0 <= k < 100,
    ensures
        hit_before(g, d, k + 1) == (hit_before(g, d, k) || (d == (k / 10, k % 10) && is_hit(g, d))),
{
    if on_board(d.0, d.1) && 10 * d.0 + d.1 == k {
        assert(d.0 == k / 10 && d.1 == k % 10);
    }
}

/// The same for the eight squares around (`a`, `b`).
proof fn lemma_next_hit_around(g: Grid, k: int, a: int, b: int)
    requires
        0 <= k < 100,
    ensures
        forall|d: (int, int)|
            touches(d, (a, b)) ==> #[trigger] hit_before(g, d, k + 1) == (hit_before(g, d, k) || (d
                == (k / 10, k % 10) && is_hit(g, d))),
{
    assert forall|d: (int, int)| touches(d, (a, b)) implies #[trigger] hit_before(g, d, k + 1) == (
    hit_before(g, d, k) || (d == (k / 10, k % 10) && is_hit(g, d))) by {
        lemma_next_hit(g, k, d);
    }
}

/// The squares share an edge or meet at a corner.
spec fn touches(d: (int, int), c: (int, int)) -> bool {
    beside(d, c) || diagonal(d, c)
}

/// On a tidy board, flagging the corners of a hit leaves the regions of
/// ship cells as they are.
proof fn lemma_corners_keep_region(g: Grid, k: int)
    requires
        well_shaped(g),
        tidy(g),
        0 <= k < 100,
        is_hit(g, (k / 10, k % 10)),
    ensures
        afloat(corners_flagged(flagged_by(g, k), (k / 10, k % 10)), (k / 10, k % 10)) == afloat(
            g,
            (k / 10, k % 10),
        ),
{
    let c = (k / 10, k % 10);
    let h = flagged_by(g, k);
    let cornered = corners_flagged(h, c);
    lemma_flagged_keeps_ships(g, k);
    assert forall|d: (int, int)| #[trigger] hull(h, d) == hull(cornered, d) by {
        if on_board(d.0, d.1) && diagonal(c, d) {
            assert(is_hit(g, c) && diagonal(c, d));
            assert(!hull(g, d));
            assert(hull(g, d) == hull(h, d));
        }
    }
    assert forall|d: (int, int)| on_board(d.0, d.1) implies (#[trigger] h[d.0][d.1] == SHIP) == (
    cornered[d.0][d.1] == SHIP) by {
        assert(hull(h, d) == hull(cornered, d));
    }
    assert(same_ships(h, cornered));
    lemma_same_ships_same_region(g, h, c);
    lemma_same_ships_same_region(h, cornered, c);
}

/// One step of the scan on a tidy board, seen at one square.
proof fn lemma_flag_step_at(g: Grid, k: int, a: int, b: int)
    requires
        well_shaped(g),
        tidy(g),
        0 <= k < 100,
        0 <= a < 10,
        0 <= b < 10,
    ensures
        flag_step(flagged_by(g, k), (k / 10, k % 10))[a][b] == flagged_by(g, k + 1)[a][b],
{
    let c = (k / 10, k % 10);
    let d = (a, b);
    let h = flagged_by(g, k);
    lemma_flagged_keeps_ships(g, k);
    assert(on_board(c.0, c.1));
    assert(is_hit(g, c) == is_hit(h, c));
    lemma_next_hit_around(g, k, a, b);
    assert(touches((a - 1, b - 1), d) && touches((a - 1, b + 1), d) && touches((a + 1, b - 1), d)
        && touches((a + 1, b + 1), d));
    assert(touches((a - 1, b), d) && touches((a + 1, b), d) && touches((a, b - 1), d) && touches(
        (a, b + 1),
        d,
    ));
    assert(h[a][b] == if ruled_out(g, d, k) { MISS } else { g[a][b] });
    if is_hit(g, c) {
        lemma_corners_keep_region(g, k);
        let cornered = corners_flagged(h, c);
        assert(cornered[a][b] == if diagonal(c, d) { MISS } else { h[a][b] });
    }
}

/// One step of the scan on a tidy board adds exactly the squares that the
/// newly handled square rules out.
proof fn lemma_flag_step(g: Grid, k: int)
    requires
        well_shaped(g),
        tidy(g),
        0 <= k < 100,
    ensures
        flag_step(flagged_by(g, k), (k / 10, k % 10)) == flagged_by(g, k + 1),
{
    let out = flag_step(flagged_by(g, k), (k / 10, k % 10));
    let next = flagged_by(g, k + 1);
    assert forall|a: int, b: int| 0 <= a < 10 && 0 <= b < 10 implies #[trigger] out[a][b]
        == next[a][b] by {
        lemma_flag_step_at(g, k, a, b);
    }
    assert(out =~~= next);
}

/// After `n` squares the scan has flagged what the hits among them rule out.
proof fn lemma_scan_prefix(g: Grid, n: nat)
    requires
        well_shaped(g),
        tidy(g),
        n <= 100,
    ensures
        flagged_until(g, n) == flagged_by(g, n as int),
    decreases n,
{
    if n == 0 {
        assert forall|a: int, b: int| 0 <= a < 10 && 0 <= b < 10 implies !ruled_out(
            g,
            (a, b),
            0,
        ) by {}
        assert(g =~~= flagged_by(g, 0));
    } else {
        lemma_scan_prefix(g, (n - 1) as nat);
        lemma_flag_step(g, n - 1);
    }
}

/// On a tidy board the scan flags exactly the squares that some hit rules
/// out, whatever the order in which it meets them.
pub proof fn lemma_scan_is_flagged(g: Grid)
    requires
        well_shaped(g),
        tidy(g),
    ensures
        flagged_until(g, 100) == flagged(g),
{
    lemma_scan_prefix(g, 100);
}

/// Flagging a tidy board a second time changes nothing, and the flagged board
/// is tidy again.
pub proof fn lemma_flagged_idempotent(g: Grid)
    requires
        well_shaped(g),
        tidy(g),
    ensures
        tidy(flagged(g)),
        flagged(flagged(g)) == flagged(g),
{
    let h = flagged(g);
    lemma_flagged_keeps_ships(g, 100);
    assert(tidy(h)) by {
        assert forall|c: (int, int), d: (int, int)|
            #![trigger is_hit(h, c), hull(h, d)]
            is_hit(h, c) && diagonal(c, d) implies !hull(h, d) by {
            assert(is_hit(g, c) == is_hit(h, c));
            assert(hull(g, d) == hull(h, d));
        }
    }
    assert forall|a: int, b: int|
        0 <= a < 10 && 0 <= b < 10 implies #[trigger] flagged(h)[a][b] == h[a][b] by {
        let d = (a, b);
        assert(h[a][b] == if ruled_out(g, d, 100) { MISS } else { g[a][b] });
        assert(is_hit(g, (a - 1, b - 1)) == is_hit(h, (a - 1, b - 1)));
        assert(is_hit(g, (a - 1, b + 1)) == is_hit(h, (a - 1, b + 1)));
        assert(is_hit(g, (a + 1, b - 1)) == is_hit(h, (a + 1, b - 1)));
        assert(is_hit(g, (a + 1, b + 1)) == is_hit(h, (a + 1, b + 1)));
        assert(is_hit(g, (a - 1, b)) == is_hit(h, (a - 1, b)));
        assert(is_hit(g, (a + 1, b)) == is_hit(h, (a + 1, b)));
        assert(is_hit(g, (a, b - 1)) == is_hit(h, (a, b - 1)));
        assert(is_hit(g, (a, b + 1)) == is_hit(h, (a, b + 1)));
        lemma_same_ships_same_region(g, h, (a - 1, b));
        lemma_same_ships_same_region(g, h, (a + 1, b));
        lemma_same_ships_same_region(g, h, (a, b - 1));
        lemma_same_ships_same_region(g, h, (a, b + 1));
    }
    assert(flagged(h) =~~= h);
}

/// Marking a tidy board twice yields what marking it once yields.
pub proof fn lemma_mark_redundant_idempotent(g: Grid)
    requires
        well_shaped(g),
        tidy(g),
    ensures
        flagged_until(flagged_until(g, 100), 100) == flagged_until(g, 100),
{
    lemma_scan_is_flagged(g);
    lemma_flagged_idempotent(g);
    lemma_scan_is_flagged(flagged(g));
}

} // verus!
