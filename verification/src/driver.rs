//! The fixpoint driver: the aggregator run until every cell is resolved,
//! some cell is empty, or the number of ambiguous cells stops falling.

use vstd::prelude::*;
use crate::aggregate::{aggregate, aggregate_spec, rows_spec};
use crate::domain::{
    digit_count, digit_list, digits_below, lemma_count_subset, lemma_digits_len,
    lemma_digits_members,
};
use crate::grid::{
    is_grid, prep_inputs, prep_spec, row_line, DomainGrid, DomainGridView, Grid, GridView,
};
use crate::line::{is_line_solution, supported};

verus! {

/// What the driver reports, as a mathematical value.
pub enum OutcomeView {
    /// Every cell has exactly one digit left: the grid of those digits.
    Solved(GridView),
    /// Propagation made no further progress: the first ambiguous cell in
    /// row-major order, and its candidates in ascending order.
    Stalled { row: int, col: int, candidates: Seq<int> },
    /// Some cell has no digit left.
    Unsolvable,
}

/// What the driver reports.
#[derive(Debug, PartialEq, Eq)]
pub enum Outcome {
    /// Every cell has exactly one digit left: the grid of those digits.
    Solved(Grid),
    /// Propagation made no further progress: the first ambiguous cell in
    /// row-major order, and its candidates in ascending order.
    Stalled { row: usize, col: usize, candidates: Vec<u8> },
    /// Some cell has no digit left.
    Unsolvable,
}

impl View for Outcome {
    type V = OutcomeView;

    open spec fn view(&self) -> OutcomeView {
        match self {
            Outcome::Solved(g) => OutcomeView::Solved(g@),
            Outcome::Stalled { row, col, candidates } => OutcomeView::Stalled {
                row: *row as int,
                col: *col as int,
                candidates: candidates@.map_values(|x: u8| x as int),
            },
            Outcome::Unsolvable => OutcomeView::Unsolvable,
        }
    }
}

/// The domain of the cell with row-major index `idx`.
pub open spec fn cell_at(g: DomainGridView, idx: int) -> Set<int> {
    g[idx / 9][idx % 9]
}

/// Whether some cell has no digit left.
pub open spec fn has_empty_cell(g: DomainGridView) -> bool {
    exists|idx: int| 0 <= idx < 81 && digit_count(#[trigger] cell_at(g, idx)) == 0
}

/// How many of the first `n` cells, in row-major order, are ambiguous.
pub open spec fn ambiguous_below(g: DomainGridView, n: int) -> int
    decreases n,
{
    if n <= 0 {
        0
    } else {
        ambiguous_below(g, n - 1) + if digit_count(cell_at(g, n - 1)) > 1 {
            1int
        } else {
            0int
        }
    }
}

/// How many cells have more than one digit left.
pub open spec fn ambiguous_count(g: DomainGridView) -> int {
    ambiguous_below(g, 81)
}

/// The row-major index of the first ambiguous cell from `idx` on, or 81.
pub open spec fn first_ambiguous_from(g: DomainGridView, idx: int) -> int
    decreases 81 - idx,
{
    if idx >= 81 {
        81
    } else if digit_count(cell_at(g, idx)) > 1 {
        idx
    } else {
        first_ambiguous_from(g, idx + 1)
    }
}

/// The row-major index of the first ambiguous cell, or 81 if there is none.
pub open spec fn first_ambiguous(g: DomainGridView) -> int {
    first_ambiguous_from(g, 0)
}

/// The digit committed for a cell: its only digit if it has exactly one, else 0.
pub open spec fn committed(u: Set<int>) -> int {
    if digit_count(u) == 1 {
        digit_list(u)[0]
    } else {
        0
    }
}

/// The grid of the committed digits.
pub open spec fn resolved(g: DomainGridView) -> GridView {
    Seq::new(9, |r: int| Seq::new(9, |c: int| committed(g[r][c])))
}

/// What the driver reports for the first ambiguous cell of `g`.
pub open spec fn stall_at(g: DomainGridView) -> OutcomeView {
    let idx = first_ambiguous(g);
    OutcomeView::Stalled { row: idx / 9, col: idx % 9, candidates: digit_list(cell_at(g, idx)) }
}

/// The driver from the snapshot `g`, where the pass before left `prev`
/// ambiguous cells: one more pass of the aggregator, then `Unsolvable` if a
/// cell is empty, `Solved` if no cell is ambiguous, `Stalled` if the number
/// of ambiguous cells has not fallen, and else the same again.
pub open spec fn drive_from(g: DomainGridView, prev: int) -> OutcomeView
    decreases prev,
{
    let next = aggregate_spec(g);
    let cur = ambiguous_count(next);
    if has_empty_cell(next) {
        OutcomeView::Unsolvable
    } else if cur == 0 {
        OutcomeView::Solved(resolved(next))
    } else if cur >= prev {
        stall_at(next)
    } else {
        proof {
            lemma_ambiguous_bound(next, 81);
        }
        drive_from(next, cur)
    }
}

/// The driver from the snapshot `g`. Before the first pass no count of
/// ambiguous cells is known, so the first pass never stalls: 82 is more than
/// any count.
pub open spec fn drive_spec(g: DomainGridView) -> OutcomeView {
    drive_from(g, 82)
}

/// The number of ambiguous cells among the first `n` is between 0 and `n`.
pub proof fn lemma_ambiguous_bound(g: DomainGridView, n: int)
    requires
        0 <= n,
    ensures
        0 <= ambiguous_below(g, n) <= n,
    decreases n,
{
    if n > 0 {
        lemma_ambiguous_bound(g, n - 1);
    }
}

/// A pass of the aggregator only removes digits.
pub proof fn lemma_aggregate_subset(g: DomainGridView, r: int, c: int, d: int)
    requires
        0 <= r < 9,
        0 <= c < 9,
        aggregate_spec(g)[r][c].contains(d),
    ensures
        g[r][c].contains(d),
        1 <= d <= 9,
{
    let l = row_line(g, r);
    assert(rows_spec(g)[r][c].contains(d));
    assert(supported(l, c, d));
    let p = choose|p: Seq<int>| #[trigger] is_line_solution(l, p) && p[c] == d;
    assert(1 <= p[c] <= 9 && l[c].contains(p[c]));
}

/// Where every cell of `a` is within the cell of `b`, `a` has no more
/// ambiguous cells.
pub proof fn lemma_ambiguous_subset(a: DomainGridView, b: DomainGridView, n: int)
    requires
        0 <= n <= 81,
        forall|idx: int, d: int|
            0 <= idx < 81 && 1 <= d <= 9 && #[trigger] cell_at(a, idx).contains(d) ==> cell_at(
                b,
                idx,
            ).contains(d),
    ensures
        ambiguous_below(a, n) <= ambiguous_below(b, n),
    decreases n,
{
    if n > 0 {
        lemma_ambiguous_subset(a, b, n - 1);
        let x = cell_at(a, n - 1);
        let y = cell_at(b, n - 1);
        assert forall|d: int| 1 <= d <= 9 && #[trigger] x.contains(d) implies y.contains(d) by {
            assert(cell_at(a, n - 1).contains(d));
        }
        lemma_count_subset(x, y, 9);
    }
}

/// A pass of the aggregator leaves no more ambiguous cells than there were.
pub proof fn lemma_aggregate_ambiguous(g: DomainGridView)
    ensures
        0 <= ambiguous_count(aggregate_spec(g)) <= ambiguous_count(g) <= 81,
{
    let a = aggregate_spec(g);
    assert forall|idx: int, d: int|
        0 <= idx < 81 && 1 <= d <= 9 && #[trigger] cell_at(a, idx).contains(d) implies cell_at(
        g,
        idx,
    ).contains(d) by {
        lemma_aggregate_subset(g, idx / 9, idx % 9, d);
    }
    lemma_ambiguous_subset(a, g, 81);
    lemma_ambiguous_bound(a, 81);
    lemma_ambiguous_bound(g, 81);
}

/// Where no cell among the first `n` is ambiguous, each of them has at most
/// one digit, and the other way round.
pub proof fn lemma_no_ambiguous(g: DomainGridView, n: int)
    requires
        0 <= n <= 81,
    ensures
        ambiguous_below(g, n) == 0 <==> forall|idx: int|
            0 <= idx < n ==> digit_count(#[trigger] cell_at(g, idx)) <= 1,
    decreases n,
{
    if n > 0 {
        lemma_no_ambiguous(g, n - 1);
        lemma_ambiguous_bound(g, n - 1);
        if ambiguous_below(g, n) == 0 {
            assert forall|idx: int| 0 <= idx < n implies digit_count(#[trigger] cell_at(g, idx))
                <= 1 by {}
        }
        if forall|idx: int| 0 <= idx < n ==> digit_count(#[trigger] cell_at(g, idx)) <= 1 {
            assert(digit_count(cell_at(g, n - 1)) <= 1);
        }
    }
}

/// A set with exactly one digit commits that digit.
pub proof fn lemma_committed(u: Set<int>, d: int)
    requires
        1 <= d <= 9,
        u.contains(d),
        digit_count(u) <= 1,
    ensures
        digit_count(u) == 1,
        committed(u) == d,
{
    lemma_digits_len(u, 9);
    lemma_digits_members(u, 9);
    let list = digits_below(u, 9);
    let i = choose|i: int| 0 <= i < list.len() && #[trigger] list[i] == d;
    assert(i == 0);
}

/// Where some cell is ambiguous, the first ambiguous cell from `idx` on is a
/// cell of the grid and has more than one digit.
pub proof fn lemma_first_ambiguous(g: DomainGridView, idx: int)
    requires
        0 <= idx <= 81,
        ambiguous_below(g, idx) < ambiguous_count(g),
    ensures
        idx <= first_ambiguous_from(g, idx) < 81,
        digit_count(cell_at(g, first_ambiguous_from(g, idx))) > 1,
    decreases 81 - idx,
{
    if idx < 81 && digit_count(cell_at(g, idx)) <= 1 {
        lemma_first_ambiguous(g, idx + 1);
    }
}

/// Where the driver stalls, it names a cell of the grid, and at least two
/// candidates, each of them a digit of that cell's domain at the start.
pub proof fn lemma_stall_cell(g: DomainGridView, prev: int)
    requires
        drive_from(g, prev) is Stalled,
    ensures
        ({
            let row = drive_from(g, prev)->row;
            let col = drive_from(g, prev)->col;
            let candidates = drive_from(g, prev)->candidates;
            &&& 0 <= row < 9
            &&& 0 <= col < 9
            &&& candidates.len() >= 2
            &&& forall|i: int|
                0 <= i < candidates.len() ==> 1 <= #[trigger] candidates[i] <= 9
                    && g[row][col].contains(candidates[i])
            &&& forall|i: int, j: int|
                0 <= i < j < candidates.len() ==> candidates[i] < candidates[j]
        }),
    decreases prev,
{
    let next = aggregate_spec(g);
    let cur = ambiguous_count(next);
    lemma_ambiguous_bound(next, 81);
    if has_empty_cell(next) {
    } else if cur == 0 {
    } else if cur >= prev {
        lemma_first_ambiguous(next, 0);
        let idx = first_ambiguous(next);
        let u = cell_at(next, idx);
        lemma_digits_len(u, 9);
        lemma_digits_members(u, 9);
        let candidates = digit_list(u);
        assert forall|i: int| 0 <= i < candidates.len() implies 1 <= #[trigger] candidates[i] <= 9
            && g[idx / 9][idx % 9].contains(candidates[i]) by {
            lemma_aggregate_subset(g, idx / 9, idx % 9, candidates[i]);
        }
    } else {
        lemma_stall_cell(next, cur);
        let row = drive_from(next, cur)->row;
        let col = drive_from(next, cur)->col;
        let candidates = drive_from(next, cur)->candidates;
        assert forall|i: int| 0 <= i < candidates.len() implies 1 <= #[trigger] candidates[i] <= 9
            && g[row][col].contains(candidates[i]) by {
            lemma_aggregate_subset(g, row, col, candidates[i]);
        }
    }
}

/// A grid that the driver reports as solved has nine rows of nine cells, and
/// each cell holds a digit of the domain that the cell had at the start.
pub proof fn lemma_solved_cells(g: DomainGridView, prev: int)
    requires
        drive_from(g, prev) is Solved,
    ensures
        ({
            let t = drive_from(g, prev)->Solved_0;
            &&& is_grid(t)
            &&& forall|r: int, c: int|
                0 <= r < 9 && 0 <= c < 9 ==> 1 <= #[trigger] t[r][c] <= 9 && g[r][c].contains(
                    t[r][c],
                )
        }),
    decreases prev,
{
    let next = aggregate_spec(g);
    let cur = ambiguous_count(next);
    lemma_ambiguous_bound(next, 81);
    if has_empty_cell(next) {
    } else if cur == 0 {
        lemma_no_ambiguous(next, 81);
        let t = resolved(next);
        assert forall|r: int, c: int| 0 <= r < 9 && 0 <= c < 9 implies 1 <= #[trigger] t[r][c] <= 9
            && g[r][c].contains(t[r][c]) by {
            let u = next[r][c];
            assert(cell_at(next, 9 * r + c) == u);
            lemma_digits_len(u, 9);
            lemma_digits_members(u, 9);
            assert(digit_count(u) == 1);
            lemma_aggregate_subset(g, r, c, digit_list(u)[0]);
        }
    } else if cur >= prev {
    } else {
        lemma_solved_cells(next, cur);
        let t = drive_from(next, cur)->Solved_0;
        assert forall|r: int, c: int| 0 <= r < 9 && 0 <= c < 9 implies g[r][c].contains(
            #[trigger] t[r][c],
        ) by {
            lemma_aggregate_subset(g, r, c, t[r][c]);
        }
    }
}

/// What one scan of a snapshot finds.
enum Scan {
    /// Some cell is empty.
    Empty,
    /// No cell is empty: the committed digits and the number of ambiguous cells.
    Counted(Grid, usize),
}

/// Scans a snapshot in row-major order: counts the digits of every cell,
/// commits the digit of each cell that has exactly one, and counts the cells
/// that have more.
fn scan(g: &DomainGrid) -> (res: Scan)
    ensures
        match res {
            Scan::Empty => has_empty_cell(g@),
            Scan::Counted(grid, n) => !has_empty_cell(g@) && grid@ == resolved(g@) && n
                == ambiguous_count(g@) && grid.wf(),
        },
{
    let mut cells = [[0u8;9];9];
    let mut curambig: usize = 0;
    let mut i: usize = 0;
    while i < 9
        invariant
            i <= 9,
            curambig == ambiguous_below(g@, 9 * i),
            curambig <= 9 * i,
            forall|idx: int| 0 <= idx < 9 * i ==> digit_count(#[trigger] cell_at(g@, idx)) != 0,
            forall|r: int, c: int|
                0 <= r < i && 0 <= c < 9 ==> #[trigger] cells[r][c] == committed(g@[r][c]),
            forall|r: int, c: int| i <= r < 9 && 0 <= c < 9 ==> #[trigger] cells[r][c] == 0,
            forall|r: int, c: int| 0 <= r < 9 && 0 <= c < 9 ==> #[trigger] cells[r][c] <= 9,
        decreases 9 - i,
    {
        let mut j: usize = 0;
        while j < 9
            invariant
                i < 9,
                j <= 9,
                curambig == ambiguous_below(g@, 9 * i + j),
                curambig <= 9 * i + j,
                forall|idx: int|
                    0 <= idx < 9 * i + j ==> digit_count(#[trigger] cell_at(g@, idx)) != 0,
                forall|r: int, c: int|
                    0 <= r < i && 0 <= c < 9 ==> #[trigger] cells[r][c] == committed(g@[r][c]),
                forall|c: int|
                    0 <= c < j ==> #[trigger] cells[i as int][c] == committed(g@[i as int][c]),
                forall|c: int| j <= c < 9 ==> #[trigger] cells[i as int][c] == 0,
                forall|r: int, c: int| i < r < 9 && 0 <= c < 9 ==> #[trigger] cells[r][c] == 0,
                forall|r: int, c: int| 0 <= r < 9 && 0 <= c < 9 ==> #[trigger] cells[r][c] <= 9,
            decreases 9 - j,
        {
            let nums = g.cells[i][j].digits();
            proof {
                let u = g.cells[i as int][j as int]@;
                assert(cell_at(g@, 9 * i + j) == u);
                assert(g@[i as int][j as int] == u);
                lemma_digits_len(u, 9);
                lemma_digits_members(u, 9);
                assert(nums@.len() == nums@.map_values(|x: u8| x as int).len());
            }
            if nums.len() == 0 {
                return Scan::Empty;
            } else if nums.len() == 1 {
                proof {
                    assert(nums@.map_values(|x: u8| x as int)[0] == nums@[0] as int);
                }
                cells[i][j] = nums[0];
            } else {
                curambig += 1;
            }
            j += 1;
        }
        i += 1;
    }
    let grid = Grid { cells };
    proof {
        assert(grid@ =~~= resolved(g@));
    }
    Scan::Counted(grid, curambig)
}

/// The first ambiguous cell from `idx` on does not come before `idx`.
pub proof fn lemma_first_from(g: DomainGridView, idx: int)
    requires
        0 <= idx <= 81,
    ensures
        idx <= first_ambiguous_from(g, idx) <= 81,
    decreases 81 - idx,
{
    if idx < 81 {
        lemma_first_from(g, idx + 1);
    }
}

/// Finds the first ambiguous cell in row-major order and lists its candidates.
fn find_ambiguous(g: &DomainGrid) -> (res: Outcome)
    requires
        ambiguous_count(g@) > 0,
    ensures
        res@ == stall_at(g@),
{
    let mut idx: usize = 0;
    proof {
        lemma_first_ambiguous(g@, 0);
    }
    loop
        invariant
            idx <= first_ambiguous(g@) < 81,
            first_ambiguous_from(g@, idx as int) == first_ambiguous(g@),
        decreases 81 - idx,
    {
        let nums = g.cells[idx / 9][idx % 9].digits();
        proof {
            let u = g.cells[idx as int / 9][idx as int % 9]@;
            assert(cell_at(g@, idx as int) == u);
            lemma_digits_len(u, 9);
            assert(nums@.len() == nums@.map_values(|x: u8| x as int).len());
        }
        if nums.len() > 1 {
            return Outcome::Stalled { row: idx / 9, col: idx % 9, candidates: nums };
        }
        proof {
            lemma_first_from(g@, idx + 1);
        }
        idx += 1;
    }
}

/// Whether the cell and the candidates of a stall are a cell of the grid and
/// at least two digits in ascending order.
pub open spec fn is_stall(row: int, col: int, candidates: Seq<int>) -> bool {
    &&& 0 <= row < 9
    &&& 0 <= col < 9
    &&& candidates.len() >= 2
    &&& forall|i: int| 0 <= i < candidates.len() ==> 1 <= #[trigger] candidates[i] <= 9
    &&& forall|i: int, j: int| 0 <= i < j < candidates.len() ==> candidates[i] < candidates[j]
}

/// Runs the aggregator from the snapshot `grid` until it solves the grid,
/// finds it unsolvable, or stalls.
///
/// Each pass prunes every row, column and block of the snapshot before it.
/// After a pass, an empty cell ends the run as `Unsolvable`, no ambiguous
/// cell ends it as `Solved`, and as many ambiguous cells as after the pass
/// before ends it as `Stalled`.
pub fn drive(grid: &DomainGrid) -> (out: Outcome)
    ensures
        out@ == drive_spec(grid@),
        match out {
            Outcome::Solved(g) => g.wf(),
            Outcome::Stalled { row, col, candidates } => is_stall(
                row as int,
                col as int,
                candidates@.map_values(|x: u8| x as int),
            ),
            Outcome::Unsolvable => true,
        },
{
    let mut inputs = *grid;
    let mut ambig: usize = 0;
    let ghost mut prev: int = 82;
    loop
        invariant
            drive_from(inputs@, prev) == drive_spec(grid@),
            0 <= prev <= 82,
            prev == 82 ==> ambig == 0,
            prev != 82 ==> ambig == prev && ambiguous_count(inputs@) == prev,
        decreases prev,
    {
        let next = aggregate(&inputs);
        proof {
            lemma_aggregate_ambiguous(inputs@);
        }
        match scan(&next) {
            Scan::Empty => {
                return Outcome::Unsolvable;
            },
            Scan::Counted(sudoku, curambig) => {
                if curambig == 0 {
                    return Outcome::Solved(sudoku);
                }
                if curambig == ambig {
                    let out = find_ambiguous(&next);
                    proof {
                        lemma_stall_cell(grid@, 82);
                    }
                    return out;
                }
                ambig = curambig;
                inputs = next;
                proof {
                    prev = curambig as int;
                }
            },
        }
    }
}

/// Runs the driver on the domains of a grid of digits.
pub fn solve_sudoku_constraints_only(sud: &Grid) -> (out: Outcome)
    requires
        sud.wf(),
    ensures
        out@ == drive_spec(prep_spec(sud@)),
        match out {
            Outcome::Solved(g) => g.wf(),
            Outcome::Stalled { row, col, candidates } => is_stall(
                row as int,
                col as int,
                candidates@.map_values(|x: u8| x as int),
            ),
            Outcome::Unsolvable => true,
        },
{
    let inputs = prep_inputs(sud);
    drive(&inputs)
}

} // verus!
