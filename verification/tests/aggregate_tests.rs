use sudoku_solver::aggregate::{
    aggregate, check_block_constraints, check_col_constraints, check_row_constraints, combine,
};
use sudoku_solver::domain::Domain;
use sudoku_solver::grid::{block_of_grid, col_of, prep_inputs, row_of, DomainGrid, Grid};
use sudoku_solver::propagate::check_constraints;

fn grid(s: &str) -> Grid {
    let bytes = s.as_bytes();
    assert_eq!(bytes.len(), 81);
    let mut cells = [[0u8; 9]; 9];
    for i in 0..81 {
        cells[i / 9][i % 9] = bytes[i] - b'0';
    }
    Grid { cells }
}

fn total(g: &DomainGrid) -> usize {
    let mut n = 0;
    for r in 0..9 {
        for c in 0..9 {
            n += g.cells[r][c].count();
        }
    }
    n
}

const PUZZLE: &str =
    "530070000600195000098000060800060003400803001700020006060000280000419005000080079";
const SOLVED: &str =
    "534678912672195348198342567859761423426853791713924856961537284287419635345286179";

#[test]
fn prep_inputs_gives_given_cells_one_digit() {
    let g = grid(PUZZLE);
    let d = prep_inputs(&g);
    for r in 0..9 {
        for c in 0..9 {
            if g.cells[r][c] == 0 {
                assert_eq!(d.cells[r][c], Domain::full());
            } else {
                assert_eq!(d.cells[r][c], Domain::single(g.cells[r][c]));
            }
        }
    }
    assert_eq!(total(&d), 30 + 51 * 9);
}

#[test]
fn well_formed_grid_has_digits_up_to_nine() {
    assert!(grid(PUZZLE).is_well_formed());
    let mut g = grid(PUZZLE);
    g.cells[8][8] = 10;
    assert!(!g.is_well_formed());
    g.cells[8][8] = 9;
    g.cells[0][0] = 255;
    assert!(!g.is_well_formed());
}

#[test]
fn lines_are_gathered_in_order() {
    let mut cells = [[Domain::empty(); 9]; 9];
    for r in 0..9 {
        for c in 0..9 {
            cells[r][c] = Domain::from_digits(&[(r as u8) + 1, (c as u8) + 1]);
        }
    }
    let d = DomainGrid { cells };
    let row = row_of(&d, 4);
    let col = col_of(&d, 7);
    for i in 0..9 {
        assert_eq!(row.cells[i], cells[4][i]);
        assert_eq!(col.cells[i], cells[i][7]);
    }
    // Block 5 is the middle band, right stack: rows 3 to 5, columns 6 to 8.
    let block = block_of_grid(&d, 5);
    let want = [(3, 6), (3, 7), (3, 8), (4, 6), (4, 7), (4, 8), (5, 6), (5, 7), (5, 8)];
    for k in 0..9 {
        assert_eq!(block.cells[k], cells[want[k].0][want[k].1]);
    }
    let first = block_of_grid(&d, 0);
    assert_eq!(first.cells[0], cells[0][0]);
    assert_eq!(first.cells[8], cells[2][2]);
    let last = block_of_grid(&d, 8);
    assert_eq!(last.cells[0], cells[6][6]);
    assert_eq!(last.cells[5], cells[7][8]);
}

#[test]
fn rows_are_pruned_one_by_one() {
    let d = prep_inputs(&grid(PUZZLE));
    let out = check_row_constraints(&d);
    for r in 0..9 {
        let want = check_constraints(&row_of(&d, r));
        for c in 0..9 {
            assert_eq!(out.cells[r][c], want.cells[c]);
        }
    }
    // Row 0 holds 5, 3 and 7.
    assert_eq!(out.cells[0][2].digits(), vec![1, 2, 4, 6, 8, 9]);
    assert_eq!(out.cells[0][0].digits(), vec![5]);
}

#[test]
fn columns_are_pruned_one_by_one() {
    let d = prep_inputs(&grid(PUZZLE));
    let out = check_col_constraints(&d);
    for c in 0..9 {
        let want = check_constraints(&col_of(&d, c));
        for r in 0..9 {
            assert_eq!(out.cells[r][c], want.cells[r]);
        }
    }
    // Column 0 holds 5, 6, 8, 4 and 7.
    assert_eq!(out.cells[2][0].digits(), vec![1, 2, 3, 9]);
}

#[test]
fn blocks_are_pruned_one_by_one() {
    let d = prep_inputs(&grid(PUZZLE));
    let out = check_block_constraints(&d);
    for b in 0..9 {
        let want = check_constraints(&block_of_grid(&d, b));
        for k in 0..9 {
            assert_eq!(out.cells[3 * (b / 3) + k / 3][3 * (b % 3) + k % 3], want.cells[k]);
        }
    }
    // The first block holds 5, 3, 6, 9 and 8.
    assert_eq!(out.cells[0][2].digits(), vec![1, 2, 4, 7]);
}

#[test]
fn aggregate_intersects_the_three_families() {
    let d = prep_inputs(&grid(PUZZLE));
    let rows = check_row_constraints(&d);
    let cols = check_col_constraints(&d);
    let blocks = check_block_constraints(&d);
    let out = aggregate(&d);
    assert_eq!(out, combine(&rows, &cols, &blocks));
    for r in 0..9 {
        for c in 0..9 {
            assert_eq!(
                out.cells[r][c],
                rows.cells[r][c].intersect(&cols.cells[r][c]).intersect(&blocks.cells[r][c])
            );
        }
    }
    let row0: Vec<Vec<u8>> = (0..9).map(|c| out.cells[0][c].digits()).collect();
    assert_eq!(
        row0,
        vec![
            vec![5],
            vec![3],
            vec![1, 2, 4],
            vec![2, 6],
            vec![7],
            vec![2, 4, 6, 8],
            vec![1, 4, 8, 9],
            vec![1, 2, 4, 9],
            vec![2, 4, 8]
        ]
    );
    let row4: Vec<Vec<u8>> = (0..9).map(|c| out.cells[4][c].digits()).collect();
    assert_eq!(
        row4,
        vec![
            vec![4],
            vec![2, 5],
            vec![2, 5, 6, 9],
            vec![8],
            vec![5],
            vec![3],
            vec![5, 7, 9],
            vec![2, 5, 9],
            vec![1]
        ]
    );
}

#[test]
fn combine_does_not_depend_on_the_order() {
    let d = prep_inputs(&grid(PUZZLE));
    let a = check_row_constraints(&d);
    let b = check_col_constraints(&d);
    let c = check_block_constraints(&d);
    let want = combine(&a, &b, &c);
    assert_eq!(combine(&a, &c, &b), want);
    assert_eq!(combine(&b, &a, &c), want);
    assert_eq!(combine(&b, &c, &a), want);
    assert_eq!(combine(&c, &a, &b), want);
    assert_eq!(combine(&c, &b, &a), want);
    assert_eq!(want.cells[0][2].digits(), vec![1, 2, 4]);
    assert_eq!(combine(&d, &d, &d), d);
}

#[test]
fn valid_full_grid_is_a_fixed_point() {
    let g = grid(SOLVED);
    let d = prep_inputs(&g);
    let out = aggregate(&d);
    assert_eq!(out, d);
    for r in 0..9 {
        for c in 0..9 {
            assert_eq!(out.cells[r][c].count(), 1);
            assert_eq!(out.cells[r][c].digits(), vec![g.cells[r][c]]);
        }
    }
}

#[test]
fn all_unknown_grid_loses_nothing() {
    let g = Grid { cells: [[0u8; 9]; 9] };
    let d = prep_inputs(&g);
    let out = aggregate(&d);
    assert_eq!(out, d);
    for r in 0..9 {
        for c in 0..9 {
            assert_eq!(out.cells[r][c], Domain::full());
        }
    }
}

#[test]
fn domains_only_shrink_from_pass_to_pass() {
    let mut d = prep_inputs(&grid(PUZZLE));
    let mut totals = vec![total(&d)];
    for _ in 0..5 {
        let next = aggregate(&d);
        for r in 0..9 {
            for c in 0..9 {
                assert!(next.cells[r][c].count() <= d.cells[r][c].count());
                assert_eq!(next.cells[r][c].intersect(&d.cells[r][c]), next.cells[r][c]);
            }
        }
        d = next;
        totals.push(total(&d));
    }
    assert_eq!(totals, vec![489, 183, 116, 87, 83, 81]);
}

#[test]
fn conflict_in_a_row_empties_its_cells() {
    let mut g = grid(PUZZLE);
    g.cells[0][8] = 5;
    let out = aggregate(&prep_inputs(&g));
    for c in 0..9 {
        assert_eq!(out.cells[0][c], Domain::empty());
    }
}

#[test]
fn conflict_in_a_block_empties_its_cells() {
    let mut g = Grid { cells: [[0u8; 9]; 9] };
    g.cells[3][3] = 2;
    g.cells[5][4] = 2;
    let out = aggregate(&prep_inputs(&g));
    for r in 3..6 {
        for c in 3..6 {
            assert_eq!(out.cells[r][c], Domain::empty());
        }
    }
    assert_eq!(out.cells[0][0], Domain::full());
    assert_eq!(out.cells[3][0].digits(), vec![1, 3, 4, 5, 6, 7, 8, 9]);
}
