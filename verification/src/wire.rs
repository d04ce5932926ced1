//! The wire and storage form of a board: ten rows of ten cell codes, one
//! string per row.

use vstd::prelude::*;
use vstd::string::StrSliceExecFns;
use crate::board::{on_board, Board, Grid, EMPTY, HIT, MISS, SHIP};

verus! {

/// The grid that a list of rows spells out.
pub open spec fn rows_grid(rows: Seq<String>) -> Grid {
    Seq::new(rows.len(), |i: int| rows[i]@)
}

/// The rows fit on a board: at most ten of them, none longer than ten.
pub open spec fn rows_fit(rows: Seq<String>) -> bool {
    &&& rows.len() <= 10
    &&& forall|i: int| 0 <= i < rows.len() ==> (#[trigger] rows[i])@.len() <= 10
}

/// The cell that the rows give the square, open water where they give none.
pub open spec fn cell_from_rows(rows: Seq<String>, i: int, j: int) -> char {
    if i < rows.len() && j < rows[i]@.len() {
        rows[i]@[j]
    } else {
        EMPTY
    }
}

/// The code is one of the four cell codes.
pub open spec fn is_cell_code(c: char) -> bool {
    c == EMPTY || c == SHIP || c == HIT || c == MISS
}

/// Every square of the grid holds one of the four cell codes.
pub open spec fn valid_codes(g: Grid) -> bool {
    forall|i: int, j: int| on_board(i, j) ==> is_cell_code(g[i][j])
}

impl Board {
    /// The board as ten strings of ten cell codes.
    pub fn to_rows(&self) -> (rows: Vec<String>)
        ensures
            rows_grid(rows@) == self@,
    {
        let mut rows: Vec<String> = Vec::new();
        let mut i: usize = 0;
        while i < 10
            invariant
                i <= 10,
                rows@.len() == i,
                forall|a: int| 0 <= a < i ==> (#[trigger] rows@[a])@ == self@[a],
            decreases 10 - i,
        {
            let mut row = String::new();
            let mut j: usize = 0;
            while j < 10
                invariant
                    i < 10,
                    j <= 10,
                    row@.len() == j,
                    forall|b: int| 0 <= b < j ==> (#[trigger] row@[b]) == self@[i as int][b],
                decreases 10 - j,
            {
                row.push(self.0[i][j]);
                j += 1;
            }
            assert(row@ =~= self@[i as int]);
            rows.push(row);
            i += 1;
        }
        assert(rows_grid(rows@) =~= self@);
        rows
    }

    /// Reads a board from rows of cell codes. Squares that the rows do not
    /// reach are open water. Rows that do not fit on a board give `None`.
    pub fn from_rows(rows: &Vec<String>) -> (r: Option<Board>)
        ensures
            r is Some <==> rows_fit(rows@),
            r matches Some(b) ==> forall|i: int, j: int|
                on_board(i, j) ==> b@[i][j] == cell_from_rows(rows@, i, j),
    {
        if rows.len() > 10 {
            return None;
        }
        let mut board = Board([[EMPTY; 10]; 10]);
        let mut i: usize = 0;
        while i < rows.len()
            invariant
                i <= rows.len() <= 10,
                forall|a: int| 0 <= a < i ==> (#[trigger] rows@[a])@.len() <= 10,
                forall|a: int, b: int|
                    0 <= a < i && 0 <= b < 10 ==> board@[a][b] == cell_from_rows(rows@, a, b),
                forall|a: int, b: int| i <= a < 10 && 0 <= b < 10 ==> board@[a][b] == EMPTY,
            decreases rows.len() - i,
        {
            let row = rows[i].as_str();
            let n = row.unicode_len();
            if n > 10 {
                return None;
            }
            let mut j: usize = 0;
            while j < n
                invariant
                    i < rows.len() <= 10,
                    j <= n <= 10,
                    n == row@.len(),
                    row@ == rows@[i as int]@,
                    forall|a: int, b: int|
                        0 <= a < i && 0 <= b < 10 ==> board@[a][b] == cell_from_rows(rows@, a, b),
                    forall|a: int, b: int| i < a < 10 && 0 <= b < 10 ==> board@[a][b] == EMPTY,
                    forall|b: int| 0 <= b < j ==> board@[i as int][b] == row@[b],
                    forall|b: int| j <= b < 10 ==> board@[i as int][b] == EMPTY,
                decreases n - j,
            {
                let c = row.get_char(j);
                board.put(i, j, c);
                j += 1;
            }
            i += 1;
        }
        Some(board)
    }

    /// Every square holds one of the four cell codes.
    pub fn validate_syntax(&self) -> (ok: bool)
        ensures
            ok == valid_codes(self@),
    {
        let mut i: usize = 0;
        while i < 10
            invariant
                i <= 10,
                forall|a: int, b: int| 0 <= a < i && 0 <= b < 10 ==> is_cell_code(self@[a][b]),
            decreases 10 - i,
        {
            let mut j: usize = 0;
            while j < 10
                invariant
                    i < 10,
                    j <= 10,
                    forall|a: int, b: int| 0 <= a < i && 0 <= b < 10 ==> is_cell_code(self@[a][b]),
                    forall|b: int| 0 <= b < j ==> is_cell_code(self@[i as int][b]),
                decreases 10 - j,
            {
                let c = self.0[i][j];
                if !(c == EMPTY || c == SHIP || c == HIT || c == MISS) {
                    assert(on_board(i as int, j as int));
                    return false;
                }
                j += 1;
            }
            i += 1;
        }
        true
    }
}

} // verus!
