//! The backtracking search: when propagation stalls, the candidates of the
//! first ambiguous cell are tried in ascending order, depth first.

use vstd::prelude::*;
use crate::driver::{
    drive_spec, lemma_solved_cells, lemma_stall_cell, solve_sudoku_constraints_only, Outcome,
    OutcomeView,
};
use crate::error::SudokuError;
use crate::grid::{fills, prep_spec, Grid, GridView};

verus! {

/// The digit of the cell with row-major index `idx`.
pub open spec fn digit_at(g: GridView, idx: int) -> int {
    g[idx / 9][idx % 9]
}

/// How many of the first `n` cells, in row-major order, are unknown.
pub open spec fn unknown_below(g: GridView, n: int) -> int
    decreases n,
{
    if n <= 0 {
        0
    } else {
        unknown_below(g, n - 1) + if digit_at(g, n - 1) == 0 {
            1int
        } else {
            0int
        }
    }
}

/// How many cells are unknown.
pub open spec fn unknown_count(g: GridView) -> int {
    unknown_below(g, 81)
}

/// The grid `g` with the digit `d` in the cell (`r`, `c`).
pub open spec fn with_cell(g: GridView, r: int, c: int, d: int) -> GridView {
    Seq::new(
        9,
        |i: int|
            Seq::new(
                9,
                |j: int|
                    if i == r && j == c {
                        d
                    } else {
                        g[i][j]
                    },
            ),
    )
}

/// Whether the cell (`r`, `c`) of `g` is unknown and every candidate is a digit.
pub open spec fn is_hypothesis(g: GridView, r: int, c: int, candidates: Seq<int>) -> bool {
    &&& 0 <= r < 9
    &&& 0 <= c < 9
    &&& g[r][c] == 0
    &&& forall|i: int| 0 <= i < candidates.len() ==> 1 <= #[trigger] candidates[i] <= 9
}

/// The search on the grid `g`: the driver's solution if it solves the grid,
/// `UnsolvableLine` if it finds it unsolvable, and where it stalls, the
/// search over the candidates of the cell it names.
pub open spec fn solve_spec(g: GridView) -> Result<GridView, SudokuError>
    decreases unknown_count(g), 1int, 0int,
{
    match drive_spec(prep_spec(g)) {
        OutcomeView::Solved(s) => Ok(s),
        OutcomeView::Unsolvable => Err(SudokuError::UnsolvableLine),
        OutcomeView::Stalled { row, col, candidates } => search_from(g, row, col, candidates, 0),
    }
}

/// The search over the candidates from the `k`-th on, for the unknown cell
/// (`row`, `col`) of `g`: the first success among the searches on `g` with a
/// candidate in that cell, or `SearchExhausted` if each of them fails.
pub open spec fn search_from(
    g: GridView,
    row: int,
    col: int,
    candidates: Seq<int>,
    k: int,
) -> Result<GridView, SudokuError>
    decreases unknown_count(g), 0int, candidates.len() - k,
    when is_hypothesis(g, row, col, candidates) && 0 <= k
{
    if k >= candidates.len() {
        Err(SudokuError::SearchExhausted)
    } else {
        proof {
            lemma_unknown_with_cell(g, row, col, candidates[k]);
        }
        match solve_spec(with_cell(g, row, col, candidates[k])) {
            Ok(s) => Ok(s),
            Err(_) => search_from(g, row, col, candidates, k + 1),
        }
    }
}

/// The number of unknown cells among the first `n` is between 0 and `n`.
pub proof fn lemma_unknown_bound(g: GridView, n: int)
    requires
        0 <= n,
    ensures
        0 <= unknown_below(g, n) <= n,
    decreases n,
{
    if n > 0 {
        lemma_unknown_bound(g, n - 1);
    }
}

/// Filling one unknown cell among the first `n` leaves one unknown cell less.
pub proof fn lemma_unknown_fill(g: GridView, r: int, c: int, d: int, n: int)
    requires
        0 <= r < 9,
        0 <= c < 9,
        g[r][c] == 0,
        d != 0,
        0 <= n <= 81,
    ensures
        unknown_below(with_cell(g, r, c, d), n) == unknown_below(g, n) - if n > 9 * r + c {
            1int
        } else {
            0int
        },
    decreases n,
{
    if n > 0 {
        lemma_unknown_fill(g, r, c, d, n - 1);
        let idx = n - 1;
        assert(digit_at(with_cell(g, r, c, d), idx) == if idx == 9 * r + c {
            d
        } else {
            digit_at(g, idx)
        });
    }
}

/// Filling an unknown cell leaves fewer unknown cells.
pub proof fn lemma_unknown_with_cell(g: GridView, r: int, c: int, d: int)
    requires
        0 <= r < 9,
        0 <= c < 9,
        g[r][c] == 0,
        d != 0,
    ensures
        0 <= unknown_count(with_cell(g, r, c, d)) < unknown_count(g),
{
    lemma_unknown_fill(g, r, c, d, 81);
    lemma_unknown_bound(with_cell(g, r, c, d), 81);
}

/// Where the driver stalls on the domains of a grid of digits, the cell it
/// names is unknown in that grid.
pub proof fn lemma_stall_is_hypothesis(g: GridView)
    requires
        drive_spec(prep_spec(g)) is Stalled,
    ensures
        is_hypothesis(
            g,
            drive_spec(prep_spec(g))->row,
            drive_spec(prep_spec(g))->col,
            drive_spec(prep_spec(g))->candidates,
        ),
{
    lemma_stall_cell(prep_spec(g), 82);
    let row = drive_spec(prep_spec(g))->row;
    let col = drive_spec(prep_spec(g))->col;
    let candidates = drive_spec(prep_spec(g))->candidates;
    assert(prep_spec(g)[row][col].contains(candidates[0]));
    assert(prep_spec(g)[row][col].contains(candidates[1]));
    assert(candidates[0] < candidates[1]);
}

/// A grid that the search returns holds a digit 1 to 9 in every cell and
/// keeps every given of the puzzle.
pub proof fn lemma_solution_fills(g: GridView, s: GridView)
    requires
        solve_spec(g) == Ok::<GridView, SudokuError>(s),
    ensures
        fills(s, g),
    decreases unknown_count(g), 1int, 0int,
{
    match drive_spec(prep_spec(g)) {
        OutcomeView::Solved(t) => {
            lemma_solved_cells(prep_spec(g), 82);
            assert forall|r: int, c: int|
                0 <= r < 9 && 0 <= c < 9 && g[r][c] != 0 implies #[trigger] s[r][c] == g[r][c] by {
                assert(prep_spec(g)[r][c].contains(s[r][c]));
            }
        },
        OutcomeView::Stalled { row, col, candidates } => {
            lemma_stall_is_hypothesis(g);
            lemma_search_fills(g, s, row, col, candidates, 0);
        },
        OutcomeView::Unsolvable => {},
    }
}

/// A grid that the search over the candidates of an unknown cell returns
/// holds a digit 1 to 9 in every cell and keeps every given of the puzzle.
pub proof fn lemma_search_fills(
    g: GridView,
    s: GridView,
    row: int,
    col: int,
    candidates: Seq<int>,
    k: int,
)
    requires
        is_hypothesis(g, row, col, candidates),
        0 <= k,
        search_from(g, row, col, candidates, k) == Ok::<GridView, SudokuError>(s),
    ensures
        fills(s, g),
    decreases unknown_count(g), 0int, candidates.len() - k,
{
    if k < candidates.len() {
        let h = with_cell(g, row, col, candidates[k]);
        lemma_unknown_with_cell(g, row, col, candidates[k]);
        if solve_spec(h) is Ok {
            lemma_solution_fills(h, s);
            assert forall|r: int, c: int|
                0 <= r < 9 && 0 <= c < 9 && g[r][c] != 0 implies #[trigger] s[r][c] == g[r][c] by {
                assert(h[r][c] == if r == row && c == col {
                    candidates[k]
                } else {
                    g[r][c]
                });
            }
        } else {
            lemma_search_fills(g, s, row, col, candidates, k + 1);
        }
    }
}

/// The result of a search as a mathematical value.
pub open spec fn result_view(res: Result<Grid, SudokuError>) -> Result<GridView, SudokuError> {
    match res {
        Ok(g) => Ok(g@),
        Err(e) => Err(e),
    }
}

/// Solves a grid: propagation to a fixpoint, and where it stalls, a guess
/// for the first ambiguous cell, lowest candidate first, each on a copy of
/// the grid.
///
/// A returned grid holds a digit 1 to 9 in every cell and keeps every given.
/// The pass that resolves the last cells does not hold their digits against
/// each other: where the puzzle, or the guess on which the search ends, has
/// no solution, a returned grid can repeat a digit in a row, a column or a
/// block.
pub fn solve_sudoku(su: &Grid) -> (res: Result<Grid, SudokuError>)
    requires
        su.wf(),
    ensures
        result_view(res) == solve_spec(su@),
        match res {
            Ok(g) => g.wf() && fills(g@, su@),
            Err(e) => e != SudokuError::MalformedInput,
        },
    decreases unknown_count(su@),
{
    match solve_sudoku_constraints_only(su) {
        Outcome::Solved(grid) => {
            proof {
                lemma_solution_fills(su@, grid@);
            }
            Ok(grid)
        },
        Outcome::Unsolvable => Err(SudokuError::UnsolvableLine),
        Outcome::Stalled { row, col, candidates } => {
            let ghost cands = candidates@.map_values(|x: u8| x as int);
            proof {
                lemma_stall_is_hypothesis(su@);
                assert(su@[row as int][col as int] == su.cells[row as int][col as int]);
            }
            let mut i: usize = 0;
            while i < candidates.len()
                invariant
                    i <= candidates.len(),
                    su.wf(),
                    row < 9,
                    col < 9,
                    cands == candidates@.map_values(|x: u8| x as int),
                    is_hypothesis(su@, row as int, col as int, cands),
                    search_from(su@, row as int, col as int, cands, i as int) == solve_spec(su@),
                decreases candidates.len() - i,
            {
                let mut sudoku = *su;
                sudoku.cells[row][col] = candidates[i];
                proof {
                    assert(cands[i as int] == candidates@[i as int] as int);
                    assert(sudoku@ =~~= with_cell(su@, row as int, col as int, cands[i as int]));
                    lemma_unknown_with_cell(su@, row as int, col as int, cands[i as int]);
                }
                match solve_sudoku(&sudoku) {
                    Ok(b) => {
                        proof {
                            lemma_solution_fills(su@, b@);
                        }
                        return Ok(b);
                    },
                    Err(_) => {},
                }
                i += 1;
            }
            Err(SudokuError::SearchExhausted)
        },
    }
}

} // verus!
