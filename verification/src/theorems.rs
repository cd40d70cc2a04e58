//! What holds of the solver as a whole: statements that relate the
//! aggregator, the driver and the search to the rules of the puzzle.

use vstd::prelude::*;
use crate::aggregate::{aggregate_spec, blocks_spec, cols_spec, rows_spec};
use crate::domain::{
    count_below, digit_count, digit_list, digits_below, full_set, lemma_count_subset,
    lemma_digits_len, lemma_digits_members,
};
use crate::driver::{
    ambiguous_count, cell_at, drive_from, drive_spec, first_ambiguous, has_empty_cell,
    lemma_aggregate_subset, lemma_ambiguous_bound, lemma_committed, lemma_first_ambiguous,
    lemma_no_ambiguous, lemma_solved_cells, resolved, OutcomeView,
};
use crate::error::SudokuError;
use crate::grid::{
    block_col, block_line, block_of, block_row, col_line, completes, fills, has_no_repeat,
    is_valid_solution, lemma_blocks_partition, prep_spec, row_line, slot_of, DomainGridView,
    GridView,
};
use crate::line::{is_line_solution, supported};
use crate::search::{
    is_hypothesis, lemma_solution_fills, lemma_stall_is_hypothesis, lemma_unknown_with_cell,
    search_from, solve_spec, unknown_count, with_cell,
};

verus! {

/// The snapshot after `k` passes of the aggregator.
pub open spec fn after_passes(g: DomainGridView, k: nat) -> DomainGridView
    decreases k,
{
    if k == 0 {
        g
    } else {
        aggregate_spec(after_passes(g, (k - 1) as nat))
    }
}

/// Monotonic shrink: from one pass of the aggregator to the next no domain
/// gains a digit, so no domain grows.
pub proof fn lemma_monotonic_shrink(g: DomainGridView, k: nat, r: int, c: int)
    requires
        0 <= r < 9,
        0 <= c < 9,
    ensures
        after_passes(g, k + 1)[r][c].subset_of(after_passes(g, k)[r][c]),
        digit_count(after_passes(g, k + 1)[r][c]) <= digit_count(after_passes(g, k)[r][c]),
{
    let before = after_passes(g, k);
    let after = after_passes(g, k + 1);
    assert(after == aggregate_spec(before));
    assert forall|d: int| after[r][c].contains(d) implies before[r][c].contains(d) by {
        lemma_aggregate_subset(before, r, c, d);
    }
    lemma_count_subset(after[r][c], before[r][c], 9);
}

/// A resolved digit is never revised: a cell that a pass has left exactly
/// one digit keeps that digit in every later pass, or loses it and is empty.
pub proof fn lemma_resolved_digit_stays(g: DomainGridView, k: nat, r: int, c: int, d: int, e: int)
    requires
        0 <= r < 9,
        0 <= c < 9,
        after_passes(g, k)[r][c] == set![d],
        after_passes(g, k + 1)[r][c].contains(e),
    ensures
        e == d,
{
    lemma_monotonic_shrink(g, k, r, c);
}

/// With every domain of a line full, every digit is supported at every position.
pub proof fn lemma_full_line_supported(l: Seq<Set<int>>, i: int, d: int)
    requires
        forall|m: int| 0 <= m < 9 ==> #[trigger] l[m] == full_set(),
        0 <= i < 9,
        1 <= d <= 9,
    ensures
        supported(l, i, d),
{
    let p = Seq::new(9, |m: int| (d - 1 + m - i) % 9 + 1);
    assert forall|m: int| 0 <= m < 9 implies 1 <= #[trigger] p[m] <= 9 && l[m].contains(p[m]) by {
        assert(l[m] == full_set());
    }
    assert(is_line_solution(l, p));
    assert(p[i] == d);
}

/// No false pruning on an empty grid: one pass of the aggregator over the
/// domains of the grid without givens leaves every domain full.
pub proof fn lemma_open_grid_keeps_all(g: GridView)
    requires
        forall|r: int, c: int| 0 <= r < 9 && 0 <= c < 9 ==> #[trigger] g[r][c] == 0,
    ensures
        aggregate_spec(prep_spec(g)) == prep_spec(g),
        forall|r: int, c: int|
            0 <= r < 9 && 0 <= c < 9 ==> #[trigger] aggregate_spec(prep_spec(g))[r][c]
                == full_set(),
{
    let dg = prep_spec(g);
    let a = aggregate_spec(dg);
    assert forall|r: int, c: int| 0 <= r < 9 && 0 <= c < 9 implies #[trigger] a[r][c]
        == full_set() by {
        assert forall|d: int| a[r][c].contains(d) == full_set().contains(d) by {
            if a[r][c].contains(d) {
                lemma_aggregate_subset(dg, r, c, d);
            }
            if 1 <= d <= 9 {
                lemma_blocks_partition(r, c);
                let in_block = block_line(dg, block_of(r, c));
                assert forall|m: int| 0 <= m < 9 implies #[trigger] in_block[m] == full_set() by {
                    lemma_blocks_partition(block_of(r, c), m);
                    assert(g[block_row(block_of(r, c), m)][block_col(block_of(r, c), m)] == 0);
                }
                lemma_full_line_supported(row_line(dg, r), c, d);
                lemma_full_line_supported(col_line(dg, c), r, d);
                lemma_full_line_supported(in_block, slot_of(r, c), d);
                assert(rows_spec(dg)[r][c].contains(d));
                assert(cols_spec(dg)[r][c].contains(d));
                assert(blocks_spec(dg)[r][c].contains(d));
            }
        }
        assert(a[r][c] =~= full_set());
    }
    assert(a =~~= dg);
}

/// A pass of the aggregator keeps every digit of a solved puzzle that takes
/// each digit from the domain of its cell.
pub proof fn lemma_pass_keeps_solution(g: DomainGridView, s: GridView)
    requires
        completes(s, g),
    ensures
        completes(s, aggregate_spec(g)),
{
    let a = aggregate_spec(g);
    reveal(has_no_repeat);
    assert forall|r: int, c: int| 0 <= r < 9 && 0 <= c < 9 implies (#[trigger] a[r][c]).contains(
        s[r][c],
    ) by {
        let d = s[r][c];
        let in_row = Seq::new(9, |m: int| s[r][m]);
        assert(is_line_solution(row_line(g, r), in_row)) by {
            assert forall|i: int| 0 <= i < 9 implies 1 <= #[trigger] in_row[i] <= 9 && row_line(
                g,
                r,
            )[i].contains(in_row[i]) by {
                assert(g[r][i].contains(s[r][i]));
            }
        }
        assert(in_row[c] == d);
        assert(supported(row_line(g, r), c, d));
        let in_col = Seq::new(9, |m: int| s[m][c]);
        assert(is_line_solution(col_line(g, c), in_col)) by {
            assert forall|i: int| 0 <= i < 9 implies 1 <= #[trigger] in_col[i] <= 9 && col_line(
                g,
                c,
            )[i].contains(in_col[i]) by {
                assert(g[i][c].contains(s[i][c]));
            }
        }
        assert(in_col[r] == d);
        assert(supported(col_line(g, c), r, d));
        let b = block_of(r, c);
        let k = slot_of(r, c);
        let in_block = Seq::new(9, |m: int| s[block_row(b, m)][block_col(b, m)]);
        assert(is_line_solution(block_line(g, b), in_block)) by {
            assert forall|i: int| 0 <= i < 9 implies 1 <= #[trigger] in_block[i] <= 9
                && block_line(g, b)[i].contains(in_block[i]) by {
                assert(g[block_row(b, i)][block_col(b, i)].contains(
                    s[block_row(b, i)][block_col(b, i)],
                ));
            }
        }
        assert(block_row(b, k) == r && block_col(b, k) == c);
        assert(in_block[k] == d);
        assert(supported(block_line(g, b), k, d));
        assert(rows_spec(g)[r][c].contains(d));
        assert(cols_spec(g)[r][c].contains(d));
        assert(blocks_spec(g)[r][c].contains(d));
    }
}

/// Fixed point on a valid full grid: one pass of the aggregator over the
/// domains of a solved puzzle leaves every domain as the singleton of the
/// given digit and no cell ambiguous, and both the driver and the search
/// return the grid itself.
pub proof fn lemma_fixed_point_on_solution(s: GridView)
    requires
        is_valid_solution(s),
    ensures
        aggregate_spec(prep_spec(s)) == prep_spec(s),
        forall|r: int, c: int|
            0 <= r < 9 && 0 <= c < 9 ==> #[trigger] aggregate_spec(prep_spec(s))[r][c]
                == set![s[r][c]],
        ambiguous_count(aggregate_spec(prep_spec(s))) == 0,
        drive_spec(prep_spec(s)) == OutcomeView::Solved(s),
        solve_spec(s) == Ok::<GridView, SudokuError>(s),
{
    let g = prep_spec(s);
    let a = aggregate_spec(g);
    assert(completes(s, g));
    lemma_pass_keeps_solution(g, s);
    assert forall|r: int, c: int| 0 <= r < 9 && 0 <= c < 9 implies #[trigger] a[r][c]
        == set![s[r][c]] by {
        assert forall|d: int| a[r][c].contains(d) implies d == s[r][c] by {
            lemma_aggregate_subset(g, r, c, d);
        }
        assert(a[r][c].contains(s[r][c]));
        assert(a[r][c] =~= set![s[r][c]]);
    }
    assert(a =~~= g);
    assert forall|idx: int| 0 <= idx < 81 implies digit_count(#[trigger] cell_at(a, idx)) <= 1 by {
        let u = a[idx / 9][idx % 9];
        assert(u == set![s[idx / 9][idx % 9]]);
        reveal_with_fuel(count_below, 10);
    }
    lemma_no_ambiguous(a, 81);
    lemma_drive_keeps_solution(g, s, 82);
}

/// Where one pass of the aggregator leaves the cell (`r`, `c`) without a
/// digit, the driver reports `Unsolvable`.
pub proof fn lemma_empty_cell_unsolvable(g: DomainGridView, r: int, c: int)
    requires
        0 <= r < 9,
        0 <= c < 9,
        forall|d: int| !aggregate_spec(g)[r][c].contains(d),
    ensures
        drive_spec(g) == OutcomeView::Unsolvable,
{
    let a = aggregate_spec(g);
    assert(digit_count(cell_at(a, 9 * r + c)) == 0) by {
        assert(cell_at(a, 9 * r + c) == a[r][c]);
        reveal_with_fuel(count_below, 10);
    }
    assert(has_empty_cell(a));
}

/// A line with the same single digit at two positions has no filling.
pub proof fn lemma_repeat_has_no_filling(l: Seq<Set<int>>, i: int, j: int, d: int)
    requires
        0 <= i < 9,
        0 <= j < 9,
        i != j,
        l[i] == set![d],
        l[j] == set![d],
    ensures
        forall|k: int, e: int| !supported(l, k, e),
{
    assert forall|k: int, e: int| !supported(l, k, e) by {
        if supported(l, k, e) {
            let p = choose|p: Seq<int>| #[trigger] is_line_solution(l, p) && p[k] == e;
            assert(l[i].contains(p[i]));
            assert(l[j].contains(p[j]));
        }
    }
}

/// Conflict detection: with the same given twice in one row, the driver
/// reports `Unsolvable` after its first pass, and the search fails.
pub proof fn lemma_duplicate_given_unsolvable(g: GridView, r: int, c1: int, c2: int)
    requires
        0 <= r < 9,
        0 <= c1 < 9,
        0 <= c2 < 9,
        c1 != c2,
        g[r][c1] != 0,
        g[r][c1] == g[r][c2],
    ensures
        drive_spec(prep_spec(g)) == OutcomeView::Unsolvable,
        solve_spec(g) == Err::<GridView, SudokuError>(SudokuError::UnsolvableLine),
{
    let dg = prep_spec(g);
    lemma_repeat_has_no_filling(row_line(dg, r), c1, c2, g[r][c1]);
    assert forall|d: int| !aggregate_spec(dg)[r][c1].contains(d) by {
        assert(rows_spec(dg)[r][c1].contains(d) == supported(row_line(dg, r), c1, d));
    }
    lemma_empty_cell_unsolvable(dg, r, c1);
}

/// The same for one column: with the same given twice in it, the driver
/// reports `Unsolvable` after its first pass, and the search fails.
pub proof fn lemma_duplicate_in_column_unsolvable(g: GridView, c: int, r1: int, r2: int)
    requires
        0 <= c < 9,
        0 <= r1 < 9,
        0 <= r2 < 9,
        r1 != r2,
        g[r1][c] != 0,
        g[r1][c] == g[r2][c],
    ensures
        drive_spec(prep_spec(g)) == OutcomeView::Unsolvable,
        solve_spec(g) == Err::<GridView, SudokuError>(SudokuError::UnsolvableLine),
{
    let dg = prep_spec(g);
    lemma_repeat_has_no_filling(col_line(dg, c), r1, r2, g[r1][c]);
    assert forall|d: int| !aggregate_spec(dg)[r1][c].contains(d) by {
        assert(cols_spec(dg)[r1][c].contains(d) == supported(col_line(dg, c), r1, d));
    }
    lemma_empty_cell_unsolvable(dg, r1, c);
}

/// The same for one block: with the same given at two places of it, the
/// driver reports `Unsolvable` after its first pass, and the search fails.
pub proof fn lemma_duplicate_in_block_unsolvable(g: GridView, b: int, k1: int, k2: int)
    requires
        0 <= b < 9,
        0 <= k1 < 9,
        0 <= k2 < 9,
        k1 != k2,
        g[block_row(b, k1)][block_col(b, k1)] != 0,
        g[block_row(b, k1)][block_col(b, k1)] == g[block_row(b, k2)][block_col(b, k2)],
    ensures
        drive_spec(prep_spec(g)) == OutcomeView::Unsolvable,
        solve_spec(g) == Err::<GridView, SudokuError>(SudokuError::UnsolvableLine),
{
    let dg = prep_spec(g);
    let r = block_row(b, k1);
    let c = block_col(b, k1);
    lemma_blocks_partition(b, k1);
    lemma_blocks_partition(b, k2);
    lemma_repeat_has_no_filling(block_line(dg, b), k1, k2, g[r][c]);
    assert forall|d: int| !aggregate_spec(dg)[r][c].contains(d) by {
        assert(blocks_spec(dg)[r][c].contains(d) == supported(block_line(dg, b), k1, d));
    }
    lemma_empty_cell_unsolvable(dg, r, c);
}

/// On domains that hold a solved puzzle `s`, the driver, whatever the count
/// of the pass before, reports `s` or a stall that keeps the digit of `s`.
proof fn lemma_drive_keeps_solution(g: DomainGridView, s: GridView, prev: int)
    requires
        completes(s, g),
    ensures
        match drive_from(g, prev) {
            OutcomeView::Solved(t) => t == s,
            OutcomeView::Stalled { row, col, candidates } => 0 <= row < 9 && 0 <= col < 9
                && candidates.contains(s[row][col]),
            OutcomeView::Unsolvable => false,
        },
    decreases prev,
{
    let next = aggregate_spec(g);
    let cur = ambiguous_count(next);
    lemma_pass_keeps_solution(g, s);
    lemma_ambiguous_bound(next, 81);
    assert(!has_empty_cell(next)) by {
        assert forall|idx: int| 0 <= idx < 81 implies digit_count(#[trigger] cell_at(next, idx))
            != 0 by {
            let u = cell_at(next, idx);
            assert(next[idx / 9][idx % 9].contains(s[idx / 9][idx % 9]));
            lemma_digits_len(u, 9);
            lemma_digits_members(u, 9);
        }
    }
    if cur == 0 {
        lemma_no_ambiguous(next, 81);
        let t = resolved(next);
        assert forall|r: int, c: int| 0 <= r < 9 && 0 <= c < 9 implies #[trigger] t[r][c]
            == s[r][c] by {
            assert(cell_at(next, 9 * r + c) == next[r][c]);
            assert(next[r][c].contains(s[r][c]));
            lemma_committed(next[r][c], s[r][c]);
        }
        assert(t =~~= s);
    } else if cur >= prev {
        lemma_first_ambiguous(next, 0);
        let idx = first_ambiguous(next);
        let u = cell_at(next, idx);
        assert(next[idx / 9][idx % 9].contains(s[idx / 9][idx % 9]));
        lemma_digits_members(u, 9);
        let d = s[idx / 9][idx % 9];
        let list = digits_below(u, 9);
        let i = choose|i: int| 0 <= i < list.len() && #[trigger] list[i] == d;
        assert(digit_list(u)[i] == d);
    } else {
        lemma_drive_keeps_solution(next, s, cur);
    }
}

/// Soundness of the driver: on domains that hold a solved puzzle `s`, the
/// driver does not report `Unsolvable`; a grid that it reports as solved is
/// `s`, so every cell of it holds a digit 1 to 9 and no two cells of one row,
/// one column or one block hold the same digit; and where it stalls, the
/// digit of `s` is among the candidates.
///
/// Without a solved puzzle within the domains nothing of this holds: a pass
/// that leaves every cell one digit ends the run, and the digits of that
/// pass are not held against each other.
pub proof fn lemma_driver_sound(g: DomainGridView, s: GridView)
    requires
        completes(s, g),
    ensures
        match drive_spec(g) {
            OutcomeView::Solved(t) => t == s && is_valid_solution(t),
            OutcomeView::Stalled { row, col, candidates } => 0 <= row < 9 && 0 <= col < 9
                && candidates.contains(s[row][col]),
            OutcomeView::Unsolvable => false,
        },
{
    lemma_drive_keeps_solution(g, s, 82);
}

/// Where the driver reports a grid as solved, the domains hold at most one
/// solved puzzle.
pub proof fn lemma_solved_is_unique(g: DomainGridView, s1: GridView, s2: GridView)
    requires
        drive_spec(g) is Solved,
        completes(s1, g),
        completes(s2, g),
    ensures
        s1 == s2,
{
    lemma_driver_sound(g, s1);
    lemma_driver_sound(g, s2);
}

/// Whether `h` is the grid `g` with some of its unknown cells filled in.
pub open spec fn extends(h: GridView, g: GridView) -> bool {
    forall|r: int, c: int|
        0 <= r < 9 && 0 <= c < 9 && g[r][c] != 0 ==> #[trigger] h[r][c] == g[r][c]
}

/// The puzzle `g` with the guesses on which the search ends: `g` itself where
/// the driver does not stall, and else the same for `g` with the first
/// candidate whose search succeeds.
pub open spec fn guessed(g: GridView) -> GridView
    decreases unknown_count(g), 1int, 0int,
{
    match drive_spec(prep_spec(g)) {
        OutcomeView::Stalled { row, col, candidates } => guessed_from(g, row, col, candidates, 0),
        _ => g,
    }
}

/// The puzzle `g` with the guesses on which the search over the candidates
/// from the `k`-th on ends.
pub open spec fn guessed_from(
    g: GridView,
    row: int,
    col: int,
    candidates: Seq<int>,
    k: int,
) -> GridView
    decreases unknown_count(g), 0int, candidates.len() - k,
    when is_hypothesis(g, row, col, candidates) && 0 <= k
{
    if k >= candidates.len() {
        g
    } else {
        proof {
            lemma_unknown_with_cell(g, row, col, candidates[k]);
        }
        if solve_spec(with_cell(g, row, col, candidates[k])) is Ok {
            guessed(with_cell(g, row, col, candidates[k]))
        } else {
            guessed_from(g, row, col, candidates, k + 1)
        }
    }
}

/// A grid that the search returns is what the driver reports as solved for
/// the puzzle with the guesses on which the search ends.
pub proof fn lemma_solution_is_driven(g: GridView, t: GridView)
    requires
        solve_spec(g) == Ok::<GridView, SudokuError>(t),
    ensures
        extends(guessed(g), g),
        drive_spec(prep_spec(guessed(g))) == OutcomeView::Solved(t),
    decreases unknown_count(g), 1int, 0int,
{
    match drive_spec(prep_spec(g)) {
        OutcomeView::Stalled { row, col, candidates } => {
            lemma_stall_is_hypothesis(g);
            lemma_guess_is_driven(g, t, row, col, candidates, 0);
        },
        _ => {},
    }
}

/// A grid that the search over the candidates of an unknown cell returns is
/// what the driver reports as solved for the puzzle with the guesses on which
/// that search ends.
pub proof fn lemma_guess_is_driven(
    g: GridView,
    t: GridView,
    row: int,
    col: int,
    candidates: Seq<int>,
    k: int,
)
    requires
        is_hypothesis(g, row, col, candidates),
        0 <= k,
        search_from(g, row, col, candidates, k) == Ok::<GridView, SudokuError>(t),
    ensures
        extends(guessed_from(g, row, col, candidates, k), g),
        drive_spec(prep_spec(guessed_from(g, row, col, candidates, k))) == OutcomeView::Solved(t),
    decreases unknown_count(g), 0int, candidates.len() - k,
{
    let guess = with_cell(g, row, col, candidates[k]);
    lemma_unknown_with_cell(g, row, col, candidates[k]);
    if solve_spec(guess) is Ok {
        lemma_solution_is_driven(guess, t);
        let h = guessed(guess);
        assert forall|r: int, c: int|
            0 <= r < 9 && 0 <= c < 9 && g[r][c] != 0 implies #[trigger] h[r][c] == g[r][c] by {
            assert(guess[r][c] == g[r][c]);
        }
    } else {
        lemma_guess_is_driven(g, t, row, col, candidates, k + 1);
    }
}

/// Soundness of the search: where the puzzle, with the guesses on which the
/// search ends, has a solution, the returned grid is that solution. Every
/// cell of it holds a digit 1 to 9, no two cells of one row, one column or
/// one block hold the same digit, and every given is kept.
///
/// Without such a solution the returned grid keeps the givens, but can hold
/// a digit twice in a row, a column or a block.
pub proof fn lemma_search_sound(g: GridView, t: GridView, s: GridView)
    requires
        solve_spec(g) == Ok::<GridView, SudokuError>(t),
        completes(s, prep_spec(guessed(g))),
    ensures
        t == s,
        is_valid_solution(t),
        fills(t, g),
{
    lemma_solution_is_driven(g, t);
    lemma_driver_sound(prep_spec(guessed(g)), s);
    lemma_solution_fills(g, t);
}

/// The other way round: a returned grid in which no digit is repeated is a
/// solution of the puzzle with the guesses on which the search ends. So the
/// returned grid repeats no digit exactly if that puzzle has a solution.
pub proof fn lemma_valid_result_completes(g: GridView, t: GridView)
    requires
        solve_spec(g) == Ok::<GridView, SudokuError>(t),
        is_valid_solution(t),
    ensures
        completes(t, prep_spec(guessed(g))),
{
    lemma_solution_is_driven(g, t);
    lemma_solved_cells(prep_spec(guessed(g)), 82);
}

/// Where the search stalls on a grid that has a solved completion `s`, the
/// search over the candidates from the `k`-th on succeeds, as long as the
/// digit of `s` is still to come.
proof fn lemma_search_reaches_solution(
    g: GridView,
    s: GridView,
    row: int,
    col: int,
    candidates: Seq<int>,
    k: int,
    j: int,
)
    requires
        completes(s, prep_spec(g)),
        is_hypothesis(g, row, col, candidates),
        0 <= k <= j < candidates.len(),
        candidates[j] == s[row][col],
    ensures
        search_from(g, row, col, candidates, k) is Ok,
    decreases unknown_count(g), 0int, candidates.len() - k,
{
    let h = with_cell(g, row, col, candidates[k]);
    lemma_unknown_with_cell(g, row, col, candidates[k]);
    if solve_spec(h) is Err {
        if k == j {
            assert(completes(s, prep_spec(h))) by {
                assert forall|r: int, c: int| 0 <= r < 9 && 0 <= c < 9 implies (
                #[trigger] prep_spec(h)[r][c]).contains(s[r][c]) by {
                    assert(prep_spec(g)[r][c].contains(s[r][c]));
                }
            }
            lemma_search_complete(h, s);
        } else {
            lemma_search_reaches_solution(g, s, row, col, candidates, k + 1, j);
        }
    }
}

/// Completeness of the search: on a grid that has a solved completion, the
/// search does not fail. A reported failure therefore shows that the puzzle
/// has no solution.
pub proof fn lemma_search_complete(g: GridView, s: GridView)
    requires
        completes(s, prep_spec(g)),
    ensures
        solve_spec(g) is Ok,
    decreases unknown_count(g), 1int, 0int,
{
    lemma_drive_keeps_solution(prep_spec(g), s, 82);
    match drive_spec(prep_spec(g)) {
        OutcomeView::Stalled { row, col, candidates } => {
            lemma_stall_is_hypothesis(g);
            let j = choose|j: int| 0 <= j < candidates.len() && candidates[j] == s[row][col];
            lemma_search_reaches_solution(g, s, row, col, candidates, 0, j);
        },
        _ => {},
    }
}

} // verus!
