//! The constraint aggregator: the line propagator applied to every row,
//! every column and every block of one snapshot, and the three results
//! intersected cell by cell.

use vstd::prelude::*;
use crate::domain::Domain;
use crate::grid::{
    block_col, block_line, block_of, block_of_grid, block_row, col_line, col_of,
    lemma_blocks_partition, row_line, row_of, slot_of, DomainGrid, DomainGridView,
};
use crate::line::propagate_spec;
use crate::propagate::check_constraints;

verus! {

/// Every row pruned on its own.
pub open spec fn rows_spec(g: DomainGridView) -> DomainGridView {
    Seq::new(9, |r: int| Seq::new(9, |c: int| propagate_spec(row_line(g, r))[c]))
}

/// Every column pruned on its own.
pub open spec fn cols_spec(g: DomainGridView) -> DomainGridView {
    Seq::new(9, |r: int| Seq::new(9, |c: int| propagate_spec(col_line(g, c))[r]))
}

/// Every block pruned on its own.
pub open spec fn blocks_spec(g: DomainGridView) -> DomainGridView {
    Seq::new(
        9,
        |r: int|
            Seq::new(9, |c: int| propagate_spec(block_line(g, block_of(r, c)))[slot_of(r, c)]),
    )
}

/// The three pruned grids joined: each cell keeps the digits that it has in
/// all three.
pub open spec fn combine_spec(
    a: DomainGridView,
    b: DomainGridView,
    c: DomainGridView,
) -> DomainGridView {
    Seq::new(
        9,
        |r: int| Seq::new(9, |k: int| a[r][k].intersect(b[r][k]).intersect(c[r][k])),
    )
}

/// One pass of the aggregator: each cell keeps the digits that its row, its
/// column and its block all support.
pub open spec fn aggregate_spec(g: DomainGridView) -> DomainGridView {
    combine_spec(rows_spec(g), cols_spec(g), blocks_spec(g))
}

/// The join does not depend on the order in which the three grids arrive.
pub proof fn lemma_combine_any_order(a: DomainGridView, b: DomainGridView, c: DomainGridView)
    ensures
        combine_spec(a, b, c) == combine_spec(a, c, b),
        combine_spec(a, b, c) == combine_spec(b, a, c),
        combine_spec(a, b, c) == combine_spec(b, c, a),
        combine_spec(a, b, c) == combine_spec(c, a, b),
        combine_spec(a, b, c) == combine_spec(c, b, a),
{
    assert(combine_spec(a, b, c) =~~= combine_spec(a, c, b));
    assert(combine_spec(a, b, c) =~~= combine_spec(b, a, c));
    assert(combine_spec(a, b, c) =~~= combine_spec(b, c, a));
    assert(combine_spec(a, b, c) =~~= combine_spec(c, a, b));
    assert(combine_spec(a, b, c) =~~= combine_spec(c, b, a));
}

/// Prunes every row of `inputs` on its own.
pub fn check_row_constraints(inputs: &DomainGrid) -> (inputs_row: DomainGrid)
    ensures
        inputs_row@ == rows_spec(inputs@),
{
    let nothing = Domain::empty();
    let mut cells = [[nothing;9];9];
    let mut i: usize = 0;
    while i < 9
        invariant
            i <= 9,
            forall|r: int, c: int|
                0 <= r < i && 0 <= c < 9 ==> (#[trigger] cells[r][c])@ == rows_spec(inputs@)[r][c],
        decreases 9 - i,
    {
        let line = row_of(inputs, i);
        let pruned = check_constraints(&line);
        cells[i] = pruned.cells;
        proof {
            assert forall|c: int| 0 <= c < 9 implies (#[trigger] cells[i as int][c])@ == rows_spec(
                inputs@,
            )[i as int][c] by {
                assert(pruned@[c] == pruned.cells[c]@);
            }
        }
        i += 1;
    }
    let inputs_row = DomainGrid { cells };
    proof {
        assert(inputs_row@ =~~= rows_spec(inputs@));
    }
    inputs_row
}

/// Prunes every column of `inputs` on its own.
pub fn check_col_constraints(inputs: &DomainGrid) -> (inputs_col: DomainGrid)
    ensures
        inputs_col@ == cols_spec(inputs@),
{
    let nothing = Domain::empty();
    let mut cells = [[nothing;9];9];
    let mut i: usize = 0;
    while i < 9
        invariant
            i <= 9,
            forall|r: int, c: int|
                0 <= r < 9 && 0 <= c < i ==> (#[trigger] cells[r][c])@ == cols_spec(inputs@)[r][c],
        decreases 9 - i,
    {
        let line = col_of(inputs, i);
        let pruned = check_constraints(&line);
        let mut r: usize = 0;
        while r < 9
            invariant
                i < 9,
                r <= 9,
                pruned@ == propagate_spec(col_line(inputs@, i as int)),
                forall|r: int, c: int|
                    0 <= r < 9 && 0 <= c < i ==> (#[trigger] cells[r][c])@ == cols_spec(
                        inputs@,
                    )[r][c],
                forall|k: int|
                    0 <= k < r ==> (#[trigger] cells[k][i as int])@ == cols_spec(
                        inputs@,
                    )[k][i as int],
            decreases 9 - r,
        {
            cells[r][i] = pruned.cells[r];
            proof {
                assert(pruned@[r as int] == pruned.cells[r as int]@);
            }
            r += 1;
        }
        i += 1;
    }
    let inputs_col = DomainGrid { cells };
    proof {
        assert(inputs_col@ =~~= cols_spec(inputs@));
    }
    inputs_col
}

/// Prunes every block of `inputs` on its own.
pub fn check_block_constraints(inputs: &DomainGrid) -> (inputs_block: DomainGrid)
    ensures
        inputs_block@ == blocks_spec(inputs@),
{
    let nothing = Domain::empty();
    let mut cells = [[nothing;9];9];
    let mut b: usize = 0;
    while b < 9
        invariant
            b <= 9,
            forall|x: int, k: int|
                0 <= x < b && 0 <= k < 9 ==> (#[trigger] cells[block_row(x, k)][block_col(x, k)])@
                    == propagate_spec(block_line(inputs@, x))[k],
        decreases 9 - b,
    {
        let line = block_of_grid(inputs, b);
        let pruned = check_constraints(&line);
        let mut k: usize = 0;
        while k < 9
            invariant
                b < 9,
                k <= 9,
                pruned@ == propagate_spec(block_line(inputs@, b as int)),
                forall|x: int, j: int|
                    0 <= x < b && 0 <= j < 9 ==> (#[trigger] cells[block_row(x, j)][block_col(
                        x,
                        j,
                    )])@ == propagate_spec(block_line(inputs@, x))[j],
                forall|j: int|
                    0 <= j < k ==> (#[trigger] cells[block_row(b as int, j)][block_col(
                        b as int,
                        j,
                    )])@ == pruned@[j],
            decreases 9 - k,
        {
            let r = 3 * (b / 3) + k / 3;
            let c = 3 * (b % 3) + k % 3;
            let ghost before = cells;
            cells[r][c] = pruned.cells[k];
            proof {
                assert(r == block_row(b as int, k as int) && c == block_col(b as int, k as int));
                assert(pruned@[k as int] == pruned.cells[k as int]@);
                assert forall|x: int, j: int|
                    0 <= x <= b && 0 <= j < 9 && !(x == b && j == k) implies (
                #[trigger] cells[block_row(x, j)][block_col(x, j)]) == before[block_row(
                    x,
                    j,
                )][block_col(x, j)] by {
                    lemma_blocks_partition(x, j);
                    lemma_blocks_partition(b as int, k as int);
                }
            }
            k += 1;
        }
        b += 1;
    }
    let inputs_block = DomainGrid { cells };
    proof {
        assert forall|r: int, c: int| 0 <= r < 9 && 0 <= c < 9 implies (
        #[trigger] inputs_block@[r][c]) == blocks_spec(inputs@)[r][c] by {
            lemma_blocks_partition(r, c);
            assert(cells[block_row(block_of(r, c), slot_of(r, c))][block_col(
                block_of(r, c),
                slot_of(r, c),
            )]@ == propagate_spec(block_line(inputs@, block_of(r, c)))[slot_of(r, c)]);
        }
        assert(inputs_block@ =~~= blocks_spec(inputs@));
    }
    inputs_block
}

/// Joins the three pruned grids: each cell keeps the digits that it has in
/// all three.
pub fn combine(rows: &DomainGrid, cols: &DomainGrid, blocks: &DomainGrid) -> (out: DomainGrid)
    ensures
        out@ == combine_spec(rows@, cols@, blocks@),
{
    let nothing = Domain::empty();
    let mut cells = [[nothing;9];9];
    let mut i: usize = 0;
    while i < 9
        invariant
            i <= 9,
            forall|r: int, c: int|
                0 <= r < i && 0 <= c < 9 ==> (#[trigger] cells[r][c])@ == combine_spec(
                    rows@,
                    cols@,
                    blocks@,
                )[r][c],
        decreases 9 - i,
    {
        let mut j: usize = 0;
        while j < 9
            invariant
                i < 9,
                j <= 9,
                forall|r: int, c: int|
                    0 <= r < i && 0 <= c < 9 ==> (#[trigger] cells[r][c])@ == combine_spec(
                        rows@,
                        cols@,
                        blocks@,
                    )[r][c],
                forall|c: int|
                    0 <= c < j ==> (#[trigger] cells[i as int][c])@ == combine_spec(
                        rows@,
                        cols@,
                        blocks@,
                    )[i as int][c],
            decreases 9 - j,
        {
            let both = rows.cells[i][j].intersect(&cols.cells[i][j]);
            cells[i][j] = both.intersect(&blocks.cells[i][j]);
            proof {
                assert(rows@[i as int][j as int] == rows.cells[i as int][j as int]@);
                assert(cols@[i as int][j as int] == cols.cells[i as int][j as int]@);
                assert(blocks@[i as int][j as int] == blocks.cells[i as int][j as int]@);
            }
            j += 1;
        }
        i += 1;
    }
    let out = DomainGrid { cells };
    proof {
        assert(out@ =~~= combine_spec(rows@, cols@, blocks@));
    }
    out
}

/// One pass of the aggregator over the snapshot `inputs`: the three line
/// families are pruned independently of one another, each from the same
/// snapshot, and the three results are joined.
pub fn aggregate(inputs: &DomainGrid) -> (out: DomainGrid)
    ensures
        out@ == aggregate_spec(inputs@),
{
    let inputs_row = check_row_constraints(inputs);
    let inputs_col = check_col_constraints(inputs);
    let inputs_block = check_block_constraints(inputs);
    combine(&inputs_row, &inputs_col, &inputs_block)
}

} // verus!
