//! Sunk detection: the orthogonally connected region of ship cells around a
//! square, and the flood fill that measures it.

use vstd::prelude::*;
use vstd::set_lib::{lemma_int_range, lemma_len_subset, set_int_range};
use crate::board::{on_board, Board, Grid, HIT, SHIP};
use crate::fleet::{covers, fits, last_col, last_row, Run};

verus! {

/// The square holds part of a ship, hit or intact.
pub open spec fn hull(g: Grid, c: (int, int)) -> bool {
    on_board(c.0, c.1) && (g[c.0][c.1] == HIT || g[c.0][c.1] == SHIP)
}

/// Two squares share an edge.
pub open spec fn beside(a: (int, int), b: (int, int)) -> bool {
    ||| a.0 == b.0 && (a.1 == b.1 + 1 || a.1 + 1 == b.1)
    ||| a.1 == b.1 && (a.0 == b.0 + 1 || a.0 + 1 == b.0)
}

/// A walk moves from square to edge-sharing square and, after its first
/// square, stays on ship cells.
pub open spec fn is_walk(g: Grid, p: Seq<(int, int)>) -> bool {
    &&& p.len() >= 1
    &&& forall|k: int| 1 <= k < p.len() ==> beside(p[k - 1], #[trigger] p[k]) && hull(g, p[k])
}

/// Some walk leads from `from` to `to`.
pub open spec fn linked(g: Grid, from: (int, int), to: (int, int)) -> bool {
    exists|p: Seq<(int, int)>| #[trigger] is_walk(g, p) && p[0] == from && p.last() == to
}

/// The region around `at` still holds an intact ship cell.
pub open spec fn afloat(g: Grid, at: (int, int)) -> bool {
    exists|c: (int, int)| #[trigger] linked(g, at, c) && on_board(c.0, c.1) && g[c.0][c.1] == SHIP
}

/// `lo` and `hi` are the corners of the smallest box around the region of `at`.
pub open spec fn boxes_region(g: Grid, at: (int, int), lo: (int, int), hi: (int, int)) -> bool {
    &&& forall|c: (int, int)| #[trigger]
        linked(g, at, c) ==> lo.0 <= c.0 <= hi.0 && lo.1 <= c.1 <= hi.1
    &&& exists|c: (int, int)| #[trigger] linked(g, at, c) && c.0 == lo.0
    &&& exists|c: (int, int)| #[trigger] linked(g, at, c) && c.1 == lo.1
    &&& exists|c: (int, int)| #[trigger] linked(g, at, c) && c.0 == hi.0
    &&& exists|c: (int, int)| #[trigger] linked(g, at, c) && c.1 == hi.1
}

/// What sunk detection reports for the square `at`: nothing while the region
/// is afloat, its bounding box once every cell of the region is hit.
pub open spec fn sunk_report(g: Grid, at: (int, int), r: Option<[(usize, usize); 2]>) -> bool {
    match r {
        None => afloat(g, at),
        Some(b) => !afloat(g, at) && boxes_region(
            g,
            at,
            (b[0].0 as int, b[0].1 as int),
            (b[1].0 as int, b[1].1 as int),
        ),
    }
}

/// Every square is linked to itself.
pub proof fn lemma_linked_self(g: Grid, a: (int, int))
    ensures
        linked(g, a, a),
{
    let p = seq![a];
    assert(is_walk(g, p));
    assert(p[0] == a && p.last() == a);
}

/// A walk can be extended by one edge-sharing ship cell.
pub proof fn lemma_linked_step(g: Grid, a: (int, int), b: (int, int), c: (int, int))
    requires
        linked(g, a, b),
        beside(b, c),
        hull(g, c),
    ensures
        linked(g, a, c),
{
    let p = choose|p: Seq<(int, int)>| #[trigger] is_walk(g, p) && p[0] == a && p.last() == b;
    let q = p.push(c);
    assert forall|k: int| 1 <= k < q.len() implies beside(q[k - 1], #[trigger] q[k]) && hull(
        g,
        q[k],
    ) by {
        if k < p.len() {
            assert(q[k] == p[k]);
            assert(q[k - 1] == p[k - 1]);
        }
    }
    assert(is_walk(g, q));
    assert(q[0] == a && q.last() == c);
}

/// A set that holds `a` and is closed under steps onto ship cells holds
/// everything linked to `a`.
pub proof fn lemma_closed_set_covers(g: Grid, a: (int, int), s: Set<(int, int)>, p: Seq<(int, int)>)
    requires
        s.contains(a),
        forall|c: (int, int), n: (int, int)|
            #![trigger s.contains(c), hull(g, n)]
            s.contains(c) && beside(c, n) && hull(g, n) ==> s.contains(n),
        is_walk(g, p),
        p[0] == a,
    ensures
        s.contains(p.last()),
    decreases p.len(),
{
    if p.len() > 1 {
        let q = p.drop_last();
        assert forall|k: int| 1 <= k < q.len() implies beside(q[k - 1], #[trigger] q[k]) && hull(
            g,
            q[k],
        ) by {
            assert(q[k] == p[k]);
            assert(q[k - 1] == p[k - 1]);
        }
        lemma_closed_set_covers(g, a, s, q);
        let k = p.len() - 1;
        assert(beside(p[k - 1], p[k]) && hull(g, p[k]));
        assert(q.last() == p[k - 1]);
    }
}

/// The square is marked in the table of seen squares.
spec fn marked(seen: [[bool; 10]; 10], c: (int, int)) -> bool {
    seen[c.0][c.1]
}

/// Row-major indices of the squares that are not yet marked.
spec fn unseen(seen: [[bool; 10]; 10]) -> Set<int> {
    Set::new(|k: int| 0 <= k < 100 && !marked(seen, (k / 10, k % 10)))
}

/// At most a hundred squares are unseen.
proof fn lemma_unseen_bounded(seen: [[bool; 10]; 10])
    ensures
        unseen(seen).finite(),
        unseen(seen).len() <= 100,
{
    lemma_int_range(0, 100);
    lemma_len_subset(unseen(seen), set_int_range(0, 100));
}

/// Marking one more square leaves one unseen square less.
proof fn lemma_unseen_shrinks(before: [[bool; 10]; 10], after: [[bool; 10]; 10], c: (int, int))
    requires
        on_board(c.0, c.1),
        !marked(before, c),
        marked(after, c),
        forall|d: (int, int)|
            on_board(d.0, d.1) && d != c ==> #[trigger] marked(after, d) == marked(before, d),
    ensures
        unseen(after).len() + 1 == unseen(before).len(),
{
    lemma_unseen_bounded(before);
    let k = 10 * c.0 + c.1;
    assert(unseen(before).contains(k));
    assert forall|m: int| unseen(after).contains(m) <==> unseen(before).remove(k).contains(
        m,
    ) by {
        if 0 <= m < 100 {
            let d = (m / 10, m % 10);
            if m != k {
                assert(d != c);
                assert(marked(after, d) == marked(before, d));
            }
        }
    }
    assert(unseen(after) =~= unseen(before).remove(k));
}

/// What the flood fill knows between two steps. `queue` holds the squares
/// still to be expanded, `done` those already expanded; every neighbour of a
/// square in `done` other than `pending` has been examined.
#[verifier::opaque]
spec fn flood_state(
    g: Grid,
    at: (int, int),
    seen: [[bool; 10]; 10],
    queue: Seq<(usize, usize)>,
    done: Set<(int, int)>,
    pending: Option<(int, int)>,
) -> bool {
    &&& forall|k: int|
        0 <= k < queue.len() ==> {
            let c = (#[trigger] queue[k].0 as int, queue[k].1 as int);
            on_board(c.0, c.1) && marked(seen, c) && linked(g, at, c)
        }
    &&& forall|c: (int, int)| #[trigger]
        done.contains(c) ==> on_board(c.0, c.1) && marked(seen, c) && linked(g, at, c)
            && g[c.0][c.1] != SHIP
    &&& forall|c: (int, int)|
        on_board(c.0, c.1) && #[trigger] marked(seen, c) ==> done.contains(c) || exists|k: int|
            0 <= k < queue.len() && c == (#[trigger] queue[k].0 as int, queue[k].1 as int)
    &&& forall|c: (int, int), n: (int, int)|
        #![trigger done.contains(c), hull(g, n)]
        done.contains(c) && Some(c) != pending && beside(c, n) && hull(g, n) ==> marked(seen, n)
}

/// The box `lo`..`hi` is the smallest one around `start` and the squares in
/// `done`.
spec fn box_state(
    done: Set<(int, int)>,
    start: (int, int),
    lo: (int, int),
    hi: (int, int),
) -> bool {
    &&& lo.0 <= start.0 <= hi.0
    &&& lo.1 <= start.1 <= hi.1
    &&& forall|c: (int, int)| #[trigger]
        done.contains(c) ==> lo.0 <= c.0 <= hi.0 && lo.1 <= c.1 <= hi.1
    &&& lo.0 == start.0 || exists|c: (int, int)| #[trigger] done.contains(c) && c.0 == lo.0
    &&& lo.1 == start.1 || exists|c: (int, int)| #[trigger] done.contains(c) && c.1 == lo.1
    &&& hi.0 == start.0 || exists|c: (int, int)| #[trigger] done.contains(c) && c.0 == hi.0
    &&& hi.1 == start.1 || exists|c: (int, int)| #[trigger] done.contains(c) && c.1 == hi.1
}

/// The flood fill starts with the square `at` marked and queued.
proof fn lemma_flood_begin(
    g: Grid,
    at: (int, int),
    seen: [[bool; 10]; 10],
    queue: Seq<(usize, usize)>,
)
    requires
        on_board(at.0, at.1),
        queue.len() == 1,
        (queue[0].0 as int, queue[0].1 as int) == at,
        forall|c: (int, int)| on_board(c.0, c.1) ==> (#[trigger] marked(seen, c) <==> c == at),
    ensures
        flood_state(g, at, seen, queue, Set::empty(), None),
{
    reveal(flood_state);
    lemma_linked_self(g, at);
    assert(marked(seen, at));
}

/// Taking the last square off the queue: it is on the board and linked to
/// the start, and unless it is an intact ship cell it moves to `done` with
/// its neighbours pending.
proof fn lemma_flood_pop(
    g: Grid,
    at: (int, int),
    seen: [[bool; 10]; 10],
    queue: Seq<(usize, usize)>,
    done: Set<(int, int)>,
)
    requires
        flood_state(g, at, seen, queue, done, None),
        queue.len() > 0,
    ensures
        ({
            let cur = (queue.last().0 as int, queue.last().1 as int);
            &&& on_board(cur.0, cur.1)
            &&& linked(g, at, cur)
            &&& g[cur.0][cur.1] != SHIP ==> flood_state(
                g,
                at,
                seen,
                queue.drop_last(),
                done.insert(cur),
                Some(cur),
            )
        }),
{
    reveal(flood_state);
    let last = queue.len() - 1;
    let cur = (queue[last].0 as int, queue[last].1 as int);
    let rest = queue.drop_last();
    let grown = done.insert(cur);
    if g[cur.0][cur.1] != SHIP {
        assert forall|k: int| 0 <= k < rest.len() implies {
            let c = (#[trigger] rest[k].0 as int, rest[k].1 as int);
            on_board(c.0, c.1) && marked(seen, c) && linked(g, at, c)
        } by {
            assert(rest[k] == queue[k]);
        }
        assert forall|c: (int, int)|
            on_board(c.0, c.1) && #[trigger] marked(seen, c) implies grown.contains(c) || exists|
            k: int,
        |
            0 <= k < rest.len() && c == (#[trigger] rest[k].0 as int, rest[k].1 as int) by {
            if !done.contains(c) && c != cur {
                let k = choose|k: int|
                    0 <= k < queue.len() && c == (#[trigger] queue[k].0 as int, queue[k].1 as int);
                assert(rest[k] == queue[k]);
            }
        }
    }
}

/// Once every ship cell beside the pending square is marked, nothing is
/// pending.
proof fn lemma_flood_close(
    g: Grid,
    at: (int, int),
    seen: [[bool; 10]; 10],
    queue: Seq<(usize, usize)>,
    done: Set<(int, int)>,
    cur: (int, int),
)
    requires
        flood_state(g, at, seen, queue, done, Some(cur)),
        forall|n: (int, int)| beside(cur, n) && #[trigger] hull(g, n) ==> marked(seen, n),
    ensures
        flood_state(g, at, seen, queue, done, None),
{
    reveal(flood_state);
}

/// With the queue empty, `done` is the whole region: it holds no intact ship
/// cell, and the box around it is the box around the region.
proof fn lemma_flood_end(
    g: Grid,
    at: (int, int),
    seen: [[bool; 10]; 10],
    queue: Seq<(usize, usize)>,
    done: Set<(int, int)>,
    lo: (int, int),
    hi: (int, int),
)
    requires
        on_board(at.0, at.1),
        flood_state(g, at, seen, queue, done, None),
        queue.len() == 0,
        marked(seen, at),
        box_state(done, at, lo, hi),
    ensures
        !afloat(g, at),
        boxes_region(g, at, lo, hi),
{
    reveal(flood_state);
    assert(done.contains(at));
    assert forall|c: (int, int)| #[trigger] linked(g, at, c) implies done.contains(c) by {
        let p = choose|p: Seq<(int, int)>| #[trigger] is_walk(g, p) && p[0] == at && p.last() == c;
        lemma_closed_set_covers(g, at, done, p);
    }
    lemma_linked_self(g, at);
    assert(exists|c: (int, int)| #[trigger] linked(g, at, c) && c.0 == lo.0);
    assert(exists|c: (int, int)| #[trigger] linked(g, at, c) && c.1 == lo.1);
    assert(exists|c: (int, int)| #[trigger] linked(g, at, c) && c.0 == hi.0);
    assert(exists|c: (int, int)| #[trigger] linked(g, at, c) && c.1 == hi.1);
}

/// The box follows when a square joins `done`.
proof fn lemma_box_grows(
    done: Set<(int, int)>,
    start: (int, int),
    lo: (int, int),
    hi: (int, int),
    cur: (int, int),
)
    requires
        box_state(done, start, lo, hi),
    ensures
        box_state(
            done.insert(cur),
            start,
            (if cur.0 < lo.0 { cur.0 } else { lo.0 }, if cur.1 < lo.1 { cur.1 } else { lo.1 }),
            (if cur.0 > hi.0 { cur.0 } else { hi.0 }, if cur.1 > hi.1 { cur.1 } else { hi.1 }),
        ),
{
    let grown = done.insert(cur);
    let lo2 = (if cur.0 < lo.0 { cur.0 } else { lo.0 }, if cur.1 < lo.1 { cur.1 } else { lo.1 });
    let hi2 = (if cur.0 > hi.0 { cur.0 } else { hi.0 }, if cur.1 > hi.1 { cur.1 } else { hi.1 });
    assert(grown.contains(cur));
    assert forall|c: (int, int)| done.contains(c) implies #[trigger] grown.contains(c) by {}
    if lo2.0 != start.0 {
        if cur.0 < lo.0 {
            assert(grown.contains(cur) && cur.0 == lo2.0);
        } else {
            let c = choose|c: (int, int)| #[trigger] done.contains(c) && c.0 == lo.0;
            assert(grown.contains(c) && c.0 == lo2.0);
        }
    }
    if lo2.1 != start.1 {
        if cur.1 < lo.1 {
            assert(grown.contains(cur) && cur.1 == lo2.1);
        } else {
            let c = choose|c: (int, int)| #[trigger] done.contains(c) && c.1 == lo.1;
            assert(grown.contains(c) && c.1 == lo2.1);
        }
    }
    if hi2.0 != start.0 {
        if cur.0 > hi.0 {
            assert(grown.contains(cur) && cur.0 == hi2.0);
        } else {
            let c = choose|c: (int, int)| #[trigger] done.contains(c) && c.0 == hi.0;
            assert(grown.contains(c) && c.0 == hi2.0);
        }
    }
    if hi2.1 != start.1 {
        if cur.1 > hi.1 {
            assert(grown.contains(cur) && cur.1 == hi2.1);
        } else {
            let c = choose|c: (int, int)| #[trigger] done.contains(c) && c.1 == hi.1;
            assert(grown.contains(c) && c.1 == hi2.1);
        }
    }
}

impl Board {
    /// Examines one neighbour of the square being expanded: an unseen ship
    /// cell is marked and queued.
    fn explore(
        &self,
        seen: &mut [[bool; 10]; 10],
        queue: &mut Vec<(usize, usize)>,
        tx: usize,
        ty: usize,
        Ghost(at): Ghost<(int, int)>,
        Ghost(done): Ghost<Set<(int, int)>>,
        Ghost(cur): Ghost<(int, int)>,
    )
        requires
            tx < 10,
            ty < 10,
            flood_state(self@, at, *old(seen), old(queue)@, done, Some(cur)),
            done.contains(cur),
            beside(cur, (tx as int, ty as int)),
        ensures
            flood_state(self@, at, *final(seen), final(queue)@, done, Some(cur)),
            forall|c: (int, int)|
                on_board(c.0, c.1) && #[trigger] marked(*old(seen), c) ==> marked(*final(seen), c),
            hull(self@, (tx as int, ty as int)) ==> marked(*final(seen), (tx as int, ty as int)),
            unseen(*final(seen)).len() + final(queue)@.len() == unseen(*old(seen)).len() + old(
                queue,
            )@.len(),
    {
        let ghost t = (tx as int, ty as int);
        if !seen[tx][ty] && (self.0[tx][ty] == HIT || self.0[tx][ty] == SHIP) {
            let ghost before = *seen;
            let ghost queue_before = queue@;
            seen[tx][ty] = true;
            queue.push((tx, ty));
            proof {
                reveal(flood_state);
                lemma_linked_step(self@, at, cur, t);
                assert forall|d: (int, int)| on_board(d.0, d.1) && d != t implies #[trigger] marked(
                    *seen,
                    d,
                ) == marked(before, d) by {}
                lemma_unseen_shrinks(before, *seen, t);
                assert forall|k: int| 0 <= k < queue@.len() implies {
                    let c = (#[trigger] queue@[k].0 as int, queue@[k].1 as int);
                    on_board(c.0, c.1) && marked(*seen, c) && linked(self@, at, c)
                } by {
                    if k < queue_before.len() {
                        assert(queue@[k] == queue_before[k]);
                    }
                }
                assert forall|c: (int, int)|
                    on_board(c.0, c.1) && #[trigger] marked(*seen, c) implies done.contains(c)
                    || exists|k: int|
                    0 <= k < queue@.len() && c == (
                    #[trigger] queue@[k].0 as int,
                    queue@[k].1 as int,
                ) by {
                    if c == t {
                        let k = queue_before.len() as int;
                        assert(c == (queue@[k].0 as int, queue@[k].1 as int));
                    } else {
                        assert(marked(before, c));
                        if !done.contains(c) {
                            let k = choose|k: int|
                                0 <= k < queue_before.len() && c == (
                                    #[trigger] queue_before[k].0 as int,
                                    queue_before[k].1 as int,
                                );
                            assert(queue@[k] == queue_before[k]);
                        }
                    }
                }
            }
        } else {
            proof {
                reveal(flood_state);
            }
        }
    }

    /// Sunk detection for the square `at`: `None` while the orthogonally
    /// connected region of ship cells around it still holds an intact cell,
    /// else the corners of the region's bounding box, least corner first.
    pub fn has_sunk(&self, at: (usize, usize)) -> (r: Option<[(usize, usize); 2]>)
        requires
            at.0 < 10,
            at.1 < 10,
        ensures
            sunk_report(self@, (at.0 as int, at.1 as int), r),
    {
        let i: usize = at.0;
        let j: usize = at.1;
        let ghost start = (i as int, j as int);
        let mut queue: Vec<(usize, usize)> = Vec::new();
        queue.push((i, j));
        let mut seen: [[bool; 10]; 10] = [[false; 10]; 10];
        seen[i][j] = true;
        let mut lo_r: usize = i;
        let mut lo_c: usize = j;
        let mut hi_r: usize = i;
        let mut hi_c: usize = j;
        let ghost mut done: Set<(int, int)> = Set::empty();
        proof {
            lemma_unseen_bounded(seen);
            assert(queue@[0] == (i, j));
            lemma_flood_begin(self@, start, seen, queue@);
        }
        while queue.len() > 0
            invariant
                i < 10,
                j < 10,
                start == (at.0 as int, at.1 as int),
                flood_state(self@, start, seen, queue@, done, None),
                marked(seen, start),
                hi_r < 10,
                hi_c < 10,
                box_state(done, start, (lo_r as int, lo_c as int), (hi_r as int, hi_c as int)),
                unseen(seen).finite(),
            decreases unseen(seen).len() + queue@.len(),
        {
            proof {
                lemma_flood_pop(self@, start, seen, queue@, done);
            }
            let cell = queue.pop().unwrap();
            let x: usize = cell.0;
            let y: usize = cell.1;
            let ghost cur = (x as int, y as int);
            if self.0[x][y] == SHIP {
                assert(linked(self@, start, cur) && self@[cur.0][cur.1] == SHIP);
                assert(afloat(self@, start));
                return None;
            }
            proof {
                lemma_box_grows(
                    done,
                    start,
                    (lo_r as int, lo_c as int),
                    (hi_r as int, hi_c as int),
                    cur,
                );
                done = done.insert(cur);
            }
            if x < lo_r {
                lo_r = x;
            }
            if y < lo_c {
                lo_c = y;
            }
            if x > hi_r {
                hi_r = x;
            }
            if y > hi_c {
                hi_c = y;
            }
            let at_cur = Ghost(cur);
            if x > 0 {
                self.explore(&mut seen, &mut queue, x - 1, y, Ghost(start), Ghost(done), at_cur);
            }
            if x < 9 {
                self.explore(&mut seen, &mut queue, x + 1, y, Ghost(start), Ghost(done), at_cur);
            }
            if y > 0 {
                self.explore(&mut seen, &mut queue, x, y - 1, Ghost(start), Ghost(done), at_cur);
            }
            if y < 9 {
                self.explore(&mut seen, &mut queue, x, y + 1, Ghost(start), Ghost(done), at_cur);
            }
            proof {
                lemma_unseen_bounded(seen);
                assert forall|n: (int, int)|
                    beside(cur, n) && #[trigger] hull(self@, n) implies marked(seen, n) by {
                    assert(n == (x - 1, y as int) || n == (x + 1, y as int) || n == (
                        x as int,
                        y - 1,
                    ) || n == (x as int, y + 1));
                }
                lemma_flood_close(self@, start, seen, queue@, done, cur);
            }
        }
        proof {
            lemma_flood_end(
                self@,
                start,
                seen,
                queue@,
                done,
                (lo_r as int, lo_c as int),
                (hi_r as int, hi_c as int),
            );
        }
        let r = [(lo_r, lo_c), (hi_r, hi_c)];
        Some(r)
    }
}

/// Every square of the run holds part of a ship.
pub open spec fn run_is_hull(g: Grid, r: Run) -> bool {
    forall|d: (int, int)| covers(r, d) ==> #[trigger] hull(g, d)
}

/// No ship cell lies beside the run without belonging to it.
pub open spec fn run_is_alone(g: Grid, r: Run) -> bool {
    forall|d: (int, int), n: (int, int)|
        #![trigger covers(r, d), hull(g, n)]
        covers(r, d) && beside(d, n) && hull(g, n) ==> covers(r, n)
}

/// Within a run of ship cells every square is linked to every other.
pub proof fn lemma_run_linked(g: Grid, r: Run, c: (int, int), d: (int, int))
    requires
        fits(r),
        run_is_hull(g, r),
        covers(r, c),
        covers(r, d),
    ensures
        linked(g, c, d),
    decreases
            (if d.0 >= c.0 { d.0 - c.0 } else { c.0 - d.0 }) + (if d.1 >= c.1 {
                d.1 - c.1
            } else {
                c.1 - d.1
            }),
{
    if d == c {
        lemma_linked_self(g, c);
    } else {
        let e = if d.0 > c.0 {
            (d.0 - 1, d.1)
        } else if d.0 < c.0 {
            (d.0 + 1, d.1)
        } else if d.1 > c.1 {
            (d.0, d.1 - 1)
        } else {
            (d.0, d.1 + 1)
        };
        assert(covers(r, e));
        lemma_run_linked(g, r, c, e);
        assert(hull(g, d));
        lemma_linked_step(g, c, e, d);
    }
}

/// The region around a square of a run that stands alone is the run.
pub proof fn lemma_region_is_run(g: Grid, r: Run, c: (int, int))
    requires
        fits(r),
        run_is_hull(g, r),
        run_is_alone(g, r),
        covers(r, c),
    ensures
        forall|d: (int, int)| #[trigger] linked(g, c, d) <==> covers(r, d),
{
    let s = Set::new(|d: (int, int)| covers(r, d));
    assert forall|d: (int, int)| #[trigger] linked(g, c, d) <==> covers(r, d) by {
        if covers(r, d) {
            lemma_run_linked(g, r, c, d);
        }
        if linked(g, c, d) {
            let p = choose|p: Seq<(int, int)>|
                #[trigger] is_walk(g, p)
                    && p[0] == c
                    && p.last() == d;
            assert forall|a: (int, int), n: (int, int)|
                #![trigger s.contains(a), hull(g, n)]
                s.contains(a) && beside(a, n) && hull(g, n) implies s.contains(n) by {
                assert(covers(r, a));
            }
            lemma_closed_set_covers(g, c, s, p);
        }
    }
}

/// The report is the box that spans exactly the run.
pub open spec fn reports_run(report: Option<[(usize, usize); 2]>, r: Run) -> bool {
    report matches Some(b) && b[0].0 == r.x && b[0].1 == r.y && b[1].0 == last_row(r) && b[1].1
        == last_col(r)
}

/// Sunk detection on a sunk ship: where every cell of a run that stands
/// alone is hit, the report for any of its squares is the box that spans
/// exactly the run.
pub proof fn lemma_sunk_run_report(
    g: Grid,
    r: Run,
    c: (int, int),
    report: Option<[(usize, usize); 2]>,
)
    requires
        fits(r),
        run_is_alone(g, r),
        forall|d: (int, int)| covers(r, d) ==> #[trigger] g[d.0][d.1] == HIT,
        covers(r, c),
        sunk_report(g, c, report),
    ensures
        reports_run(report, r),
{
    assert(run_is_hull(g, r)) by {
        assert forall|d: (int, int)| covers(r, d) implies #[trigger] hull(g, d) by {
            assert(g[d.0][d.1] == HIT);
        }
    }
    lemma_region_is_run(g, r, c);
    if afloat(g, c) {
        let d = choose|d: (int, int)|
            #[trigger] linked(g, c, d)
                && on_board(d.0, d.1)
                && g[d.0][d.1] == SHIP;
        assert(covers(r, d));
        assert(g[d.0][d.1] == HIT);
    }
    let b = report->Some_0;
    let lo = (b[0].0 as int, b[0].1 as int);
    let hi = (b[1].0 as int, b[1].1 as int);
    assert(boxes_region(g, c, lo, hi));
    let first = (r.x, r.y);
    let last = (last_row(r), last_col(r));
    assert(covers(r, first) && covers(r, last));
    assert(linked(g, c, first) && linked(g, c, last));
    let w = choose|d: (int, int)| #[trigger] linked(g, c, d) && d.0 == lo.0;
    assert(covers(r, w));
    let w = choose|d: (int, int)| #[trigger] linked(g, c, d) && d.1 == lo.1;
    assert(covers(r, w));
    let w = choose|d: (int, int)| #[trigger] linked(g, c, d) && d.0 == hi.0;
    assert(covers(r, w));
    let w = choose|d: (int, int)| #[trigger] linked(g, c, d) && d.1 == hi.1;
    assert(covers(r, w));
}

/// Sunk detection on a ship that is not sunk: while a run of ship cells
/// holds an intact cell, the report for any of its squares is `None`.
pub proof fn lemma_afloat_run_report(
    g: Grid,
    r: Run,
    c: (int, int),
    d: (int, int),
    report: Option<[(usize, usize); 2]>,
)
    requires
        fits(r),
        run_is_hull(g, r),
        covers(r, c),
        covers(r, d),
        g[d.0][d.1] == SHIP,
        sunk_report(g, c, report),
    ensures
        report is None,
{
    lemma_run_linked(g, r, c, d);
    assert(on_board(d.0, d.1));
    assert(afloat(g, c));
}

} // verus!
