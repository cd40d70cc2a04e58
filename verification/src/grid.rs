//! The 9x9 grid of digits, the grid of domains derived from it, and the three
//! families of lines that partition the 81 cells.

use vstd::prelude::*;
use crate::domain::{full_set, Domain};
use crate::line::Line;

verus! {

/// A grid of digits as a mathematical value: nine rows of nine integers.
pub type GridView = Seq<Seq<int>>;

/// A grid of domains as a mathematical value: nine rows of nine sets of digits.
pub type DomainGridView = Seq<Seq<Set<int>>>;

/// A 9x9 grid of digits. The digit 0 stands for an unknown cell.
#[derive(Clone, Copy, Debug, PartialEq, Eq)]
pub struct Grid {
    /// The digit of each cell, row by row.
    pub cells: [[u8; 9]; 9],
}

impl View for Grid {
    type V = GridView;

    open spec fn view(&self) -> GridView {
        Seq::new(9, |r: int| Seq::new(9, |c: int| self.cells[r][c] as int))
    }
}

impl Grid {
    /// Every cell holds a digit, 0 to 9.
    pub open spec fn wf(&self) -> bool {
        forall|r: int, c: int| 0 <= r < 9 && 0 <= c < 9 ==> #[trigger] self.cells[r][c] <= 9
    }

    /// Whether every cell holds a digit, 0 to 9.
    pub fn is_well_formed(&self) -> (b: bool)
        ensures
            b == self.wf(),
    {
        let mut r: usize = 0;
        while r < 9
            invariant
                r <= 9,
                forall|i: int, c: int|
                    0 <= i < r && 0 <= c < 9 ==> #[trigger] self.cells[i][c] <= 9,
            decreases 9 - r,
        {
            let mut c: usize = 0;
            while c < 9
                invariant
                    r < 9,
                    c <= 9,
                    forall|i: int, c: int|
                        0 <= i < r && 0 <= c < 9 ==> #[trigger] self.cells[i][c] <= 9,
                    forall|j: int| 0 <= j < c ==> #[trigger] self.cells[r as int][j] <= 9,
                decreases 9 - c,
            {
                if self.cells[r][c] > 9 {
                    return false;
                }
                c += 1;
            }
            r += 1;
        }
        true
    }
}

/// A 9x9 grid of domains.
#[derive(Clone, Copy, Debug, PartialEq, Eq)]
pub struct DomainGrid {
    /// The domain of each cell, row by row.
    pub cells: [[Domain; 9]; 9],
}

impl View for DomainGrid {
    type V = DomainGridView;

    open spec fn view(&self) -> DomainGridView {
        Seq::new(9, |r: int| Seq::new(9, |c: int| self.cells[r][c]@))
    }
}

/// The domains at the start of an attempt: an unknown cell may take any
/// digit, a given cell only its own.
pub open spec fn prep_spec(g: GridView) -> DomainGridView {
    Seq::new(
        9,
        |r: int|
            Seq::new(
                9,
                |c: int|
                    if g[r][c] == 0 {
                        full_set()
                    } else {
                        set![g[r][c]]
                    },
            ),
    )
}

/// The block that holds the cell (`r`, `c`); blocks are numbered row by row.
pub open spec fn block_of(r: int, c: int) -> int {
    3 * (r / 3) + c / 3
}

/// The place of the cell (`r`, `c`) within its block, row by row.
pub open spec fn slot_of(r: int, c: int) -> int {
    3 * (r % 3) + c % 3
}

/// The row of the cell at place `k` of block `b`.
pub open spec fn block_row(b: int, k: int) -> int {
    3 * (b / 3) + k / 3
}

/// The column of the cell at place `k` of block `b`.
pub open spec fn block_col(b: int, k: int) -> int {
    3 * (b % 3) + k % 3
}

/// The blocks partition the grid: each cell has one block and one place in
/// it, and each place of each block is one cell.
pub proof fn lemma_blocks_partition(x: int, y: int)
    requires
        0 <= x < 9,
        0 <= y < 9,
    ensures
        0 <= block_of(x, y) < 9,
        0 <= slot_of(x, y) < 9,
        block_row(block_of(x, y), slot_of(x, y)) == x,
        block_col(block_of(x, y), slot_of(x, y)) == y,
        0 <= block_row(x, y) < 9,
        0 <= block_col(x, y) < 9,
        block_of(block_row(x, y), block_col(x, y)) == x,
        slot_of(block_row(x, y), block_col(x, y)) == y,
{
}

/// The domains of row `r`, left to right.
pub open spec fn row_line(g: DomainGridView, r: int) -> Seq<Set<int>> {
    Seq::new(9, |c: int| g[r][c])
}

/// The domains of column `c`, top to bottom.
pub open spec fn col_line(g: DomainGridView, c: int) -> Seq<Set<int>> {
    Seq::new(9, |r: int| g[r][c])
}

/// The domains of block `b`, row by row within the block.
pub open spec fn block_line(g: DomainGridView, b: int) -> Seq<Set<int>> {
    Seq::new(9, |k: int| g[block_row(b, k)][block_col(b, k)])
}

/// Whether `s` has nine rows of nine cells.
pub open spec fn is_grid(s: GridView) -> bool {
    s.len() == 9 && forall|r: int| 0 <= r < 9 ==> (#[trigger] s[r]).len() == 9
}

/// Whether every cell of `s` holds a digit 1 to 9.
pub open spec fn is_filled(s: GridView) -> bool {
    &&& is_grid(s)
    &&& forall|r: int, c: int| 0 <= r < 9 && 0 <= c < 9 ==> 1 <= #[trigger] s[r][c] <= 9
}

/// Whether no two cells of one row, one column or one block of `s` hold the
/// same digit.
#[verifier::opaque]
pub open spec fn has_no_repeat(s: GridView) -> bool {
    &&& forall|r: int, c1: int, c2: int|
        0 <= r < 9 && 0 <= c1 < c2 < 9 ==> #[trigger] s[r][c1] != #[trigger] s[r][c2]
    &&& forall|c: int, r1: int, r2: int|
        0 <= c < 9 && 0 <= r1 < r2 < 9 ==> #[trigger] s[r1][c] != #[trigger] s[r2][c]
    &&& forall|b: int, k1: int, k2: int|
        0 <= b < 9 && 0 <= k1 < k2 < 9 ==> #[trigger] s[block_row(b, k1)][block_col(b, k1)]
            != #[trigger] s[block_row(b, k2)][block_col(b, k2)]
}

/// Whether `s` is a solved puzzle: every cell holds a digit 1 to 9, and no
/// two cells of one row, one column or one block hold the same digit.
pub open spec fn is_valid_solution(s: GridView) -> bool {
    is_filled(s) && has_no_repeat(s)
}

/// Whether `s` is a solved puzzle that takes each digit from the domain of its cell.
pub open spec fn completes(s: GridView, g: DomainGridView) -> bool {
    &&& is_valid_solution(s)
    &&& forall|r: int, c: int| 0 <= r < 9 && 0 <= c < 9 ==> (#[trigger] g[r][c]).contains(s[r][c])
}

/// Whether `s` fills the grid `g`: every cell of `s` holds a digit 1 to 9,
/// and every given of `g` is kept.
pub open spec fn fills(s: GridView, g: GridView) -> bool {
    &&& is_filled(s)
    &&& forall|r: int, c: int|
        0 <= r < 9 && 0 <= c < 9 && g[r][c] != 0 ==> #[trigger] s[r][c] == g[r][c]
}

/// Builds the grid of domains for a grid of digits.
pub fn prep_inputs(sudoku: &Grid) -> (input: DomainGrid)
    requires
        sudoku.wf(),
    ensures
        input@ == prep_spec(sudoku@),
{
    let full = Domain::full();
    let mut cells = [[full;9];9];
    let mut r: usize = 0;
    while r < 9
        invariant
            r <= 9,
            sudoku.wf(),
            forall|i: int, j: int|
                0 <= i < r && 0 <= j < 9 ==> (#[trigger] cells[i][j])@ == prep_spec(sudoku@)[i][j],
            forall|i: int, j: int|
                r <= i < 9 && 0 <= j < 9 ==> (#[trigger] cells[i][j])@ == full_set(),
        decreases 9 - r,
    {
        let mut c: usize = 0;
        while c < 9
            invariant
                r < 9,
                c <= 9,
                sudoku.wf(),
                forall|i: int, j: int|
                    0 <= i < r && 0 <= j < 9 ==> (#[trigger] cells[i][j])@ == prep_spec(
                        sudoku@,
                    )[i][j],
                forall|j: int|
                    0 <= j < c ==> (#[trigger] cells[r as int][j])@ == prep_spec(
                        sudoku@,
                    )[r as int][j],
                forall|j: int| c <= j < 9 ==> (#[trigger] cells[r as int][j])@ == full_set(),
                forall|i: int, j: int|
                    r < i < 9 && 0 <= j < 9 ==> (#[trigger] cells[i][j])@ == full_set(),
            decreases 9 - c,
        {
            let d = sudoku.cells[r][c];
            assert(sudoku.cells[r as int][c as int] <= 9);
            if d != 0 {
                cells[r][c] = Domain::single(d);
            }
            c += 1;
        }
        r += 1;
    }
    let input = DomainGrid { cells };
    proof {
        assert(input@ =~~= prep_spec(sudoku@));
    }
    input
}

/// Gathers row `r` of a grid of domains.
pub fn row_of(inputs: &DomainGrid, r: usize) -> (line: Line)
    requires
        r < 9,
    ensures
        line@ == row_line(inputs@, r as int),
{
    let line = Line { cells: inputs.cells[r] };
    proof {
        assert(line@ =~= row_line(inputs@, r as int));
    }
    line
}

/// Gathers column `c` of a grid of domains.
pub fn col_of(inputs: &DomainGrid, c: usize) -> (line: Line)
    requires
        c < 9,
    ensures
        line@ == col_line(inputs@, c as int),
{
    let nothing = Domain::empty();
    let mut cells = [nothing;9];
    let mut r: usize = 0;
    while r < 9
        invariant
            r <= 9,
            c < 9,
            forall|i: int| 0 <= i < r ==> #[trigger] cells[i] == inputs.cells[i][c as int],
        decreases 9 - r,
    {
        cells[r] = inputs.cells[r][c];
        r += 1;
    }
    let line = Line { cells };
    proof {
        assert(line@ =~= col_line(inputs@, c as int));
    }
    line
}

/// Gathers block `b` of a grid of domains.
pub fn block_of_grid(inputs: &DomainGrid, b: usize) -> (line: Line)
    requires
        b < 9,
    ensures
        line@ == block_line(inputs@, b as int),
{
    let nothing = Domain::empty();
    let mut cells = [nothing;9];
    let mut k: usize = 0;
    while k < 9
        invariant
            k <= 9,
            b < 9,
            forall|i: int|
                0 <= i < k ==> #[trigger] cells[i] == inputs.cells[block_row(
                    b as int,
                    i,
                )][block_col(b as int, i)],
        decreases 9 - k,
    {
        cells[k] = inputs.cells[3 * (b / 3) + k / 3][3 * (b % 3) + k % 3];
        k += 1;
    }
    let line = Line { cells };
    proof {
        assert(line@ =~= block_line(inputs@, b as int));
    }
    line
}

} // verus!
