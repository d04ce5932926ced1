//! What holds of every board that a match can reach: a fleet under fire.

use vstd::prelude::*;
use crate::board::{
    attack_result, attacked, on_board, well_shaped, Grid, EMPTY, HIT, MISS, SHIP,
};
use crate::fleet::{apart, covered, covers, fits, laid_out, Run};
use crate::redundant::{diagonal, flagged, is_hit, lemma_flagged_idempotent, tidy};
use crate::sunk::{
    beside, hull, lemma_afloat_run_report, lemma_sunk_run_report, reports_run, run_is_alone,
    run_is_hull, sunk_report,
};

verus! {

/// The grid shows the runs of the list under fire: the runs lie on the board
/// clear of each other, and the ship cells of the grid, hit or intact, are
/// exactly the squares of the runs.
pub open spec fn under_fire(g: Grid, runs: Seq<Run>) -> bool {
    &&& well_shaped(g)
    &&& forall|k: int| 0 <= k < runs.len() ==> fits(#[trigger] runs[k])
    &&& forall|a: int, b: int|
        0 <= a < b < runs.len() ==> apart(#[trigger] runs[a], #[trigger] runs[b])
    &&& forall|c: (int, int)| on_board(c.0, c.1) ==> (#[trigger] hull(g, c) <==> covered(runs, c))
}

/// Every cell of the run is hit.
pub open spec fn all_hit(g: Grid, r: Run) -> bool {
    forall|d: (int, int)| covers(r, d) ==> #[trigger] g[d.0][d.1] == HIT
}

/// A freshly laid out board is a fleet under fire.
pub proof fn lemma_laid_out_under_fire(g: Grid, runs: Seq<Run>)
    requires
        well_shaped(g),
        laid_out(g, runs),
    ensures
        under_fire(g, runs),
{
    assert forall|c: (int, int)| on_board(c.0, c.1) implies (#[trigger] hull(g, c) <==> covered(
        runs,
        c,
    )) by {
        assert(g[c.0][c.1] == if covered(runs, c) { SHIP } else { EMPTY });
    }
}

/// An accepted shot leaves a fleet under fire a fleet under fire.
pub proof fn lemma_shot_keeps_under_fire(g: Grid, runs: Seq<Run>, i: int, j: int)
    requires
        under_fire(g, runs),
        attack_result(g, i, j) is Some,
    ensures
        under_fire(attacked(g, i, j), runs),
{
    let h = attacked(g, i, j);
    assert forall|c: (int, int)| on_board(c.0, c.1) implies (#[trigger] hull(h, c) <==> covered(
        runs,
        c,
    )) by {
        assert(hull(g, c) <==> covered(runs, c));
        if c.0 == i && c.1 == j {
            assert(h[c.0][c.1] == if g[i][j] == SHIP { HIT } else { MISS });
        } else if c.0 == i {
            assert(h[c.0][c.1] == g[c.0][c.1]);
        } else {
            assert(h[c.0] == g[c.0]);
        }
    }
}

/// Two runs that are apart are different runs, and the squares of one run
/// never meet at a corner.
proof fn lemma_same_run(runs: Seq<Run>, a: int, b: int, c: (int, int), d: (int, int))
    requires
        forall|k: int| 0 <= k < runs.len() ==> fits(#[trigger] runs[k]),
        forall|a: int, b: int|
            0 <= a < b < runs.len() ==> apart(#[trigger] runs[a], #[trigger] runs[b]),
        0 <= a < runs.len(),
        0 <= b < runs.len(),
        covers(runs[a], c),
        covers(runs[b], d),
        beside(c, d) || diagonal(c, d),
    ensures
        a == b,
        !diagonal(c, d),
{
    if a < b {
        assert(apart(runs[a], runs[b]));
    }
    if b < a {
        assert(apart(runs[b], runs[a]));
    }
    assert(fits(runs[a]));
}

/// In a fleet under fire no hit touches another ship cell at a corner.
pub proof fn lemma_under_fire_tidy(g: Grid, runs: Seq<Run>)
    requires
        under_fire(g, runs),
    ensures
        tidy(g),
{
    assert forall|c: (int, int), d: (int, int)|
        #![trigger is_hit(g, c), hull(g, d)]
        is_hit(g, c) && diagonal(c, d) implies !hull(g, d) by {
        if hull(g, d) {
            assert(hull(g, c));
            let a = choose|k: int| 0 <= k < runs.len() && covers(#[trigger] runs[k], c);
            let b = choose|k: int| 0 <= k < runs.len() && covers(#[trigger] runs[k], d);
            lemma_same_run(runs, a, b, c, d);
        }
    }
}

/// In a fleet under fire every ship stands alone.
pub proof fn lemma_under_fire_alone(g: Grid, runs: Seq<Run>, k: int)
    requires
        under_fire(g, runs),
        0 <= k < runs.len(),
    ensures
        run_is_hull(g, runs[k]),
        run_is_alone(g, runs[k]),
{
    let r = runs[k];
    assert(fits(r));
    assert forall|d: (int, int)| covers(r, d) implies #[trigger] hull(g, d) by {
        assert(on_board(d.0, d.1));
        assert(hull(g, d) <==> covered(runs, d));
    }
    assert forall|d: (int, int), n: (int, int)|
        #![trigger covers(r, d), hull(g, n)]
        covers(r, d) && beside(d, n) && hull(g, n) implies covers(r, n) by {
        let b = choose|j: int| 0 <= j < runs.len() && covers(#[trigger] runs[j], n);
        lemma_same_run(runs, k, b, d, n);
    }
}

/// Marking the display view of a fleet under fire twice yields what marking
/// it once yields.
pub proof fn lemma_under_fire_marking_idempotent(g: Grid, runs: Seq<Run>)
    requires
        under_fire(g, runs),
    ensures
        flagged(flagged(g)) == flagged(g),
{
    lemma_under_fire_tidy(g, runs);
    lemma_flagged_idempotent(g);
}

/// Sunk detection in a fleet under fire. For a square of a ship the report
/// is the box that spans exactly the ship once every cell of it is hit, and
/// nothing before.
pub proof fn lemma_under_fire_report(
    g: Grid,
    runs: Seq<Run>,
    k: int,
    c: (int, int),
    report: Option<[(usize, usize); 2]>,
)
    requires
        under_fire(g, runs),
        0 <= k < runs.len(),
        covers(runs[k], c),
        sunk_report(g, c, report),
    ensures
        all_hit(g, runs[k]) ==> reports_run(report, runs[k]),
        !all_hit(g, runs[k]) ==> report is None,
{
    let r = runs[k];
    lemma_under_fire_alone(g, runs, k);
    assert(fits(r));
    if all_hit(g, r) {
        lemma_sunk_run_report(g, r, c, report);
    } else {
        let d = choose|d: (int, int)| covers(r, d) && #[trigger] g[d.0][d.1] != HIT;
        assert(hull(g, d));
        lemma_afloat_run_report(g, r, c, d, report);
    }
}

} // verus!
