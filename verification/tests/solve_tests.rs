use sudoku_solver::driver::{drive, solve_sudoku_constraints_only, Outcome};
use sudoku_solver::error::SudokuError;
use sudoku_solver::grid::{prep_inputs, Grid};
use sudoku_solver::search::solve_sudoku;
use sudoku_solver::text::{parse_digit, parse_grid, parse_line};

fn grid(s: &str) -> Grid {
    let bytes = s.as_bytes();
    assert_eq!(bytes.len(), 81);
    let mut cells = [[0u8; 9]; 9];
    for i in 0..81 {
        cells[i / 9][i % 9] = bytes[i] - b'0';
    }
    Grid { cells }
}

fn is_valid(g: &Grid) -> bool {
    for i in 0..9 {
        let mut row = [false; 10];
        let mut col = [false; 10];
        let mut blk = [false; 10];
        for k in 0..9 {
            let a = g.cells[i][k] as usize;
            let b = g.cells[k][i] as usize;
            let c = g.cells[3 * (i / 3) + k / 3][3 * (i % 3) + k % 3] as usize;
            if a < 1 || a > 9 || b < 1 || b > 9 || c < 1 || c > 9 {
                return false;
            }
            if row[a] || col[b] || blk[c] {
                return false;
            }
            row[a] = true;
            col[b] = true;
            blk[c] = true;
        }
    }
    true
}

fn keeps_givens(puzzle: &Grid, solved: &Grid) -> bool {
    for r in 0..9 {
        for c in 0..9 {
            if puzzle.cells[r][c] != 0 && puzzle.cells[r][c] != solved.cells[r][c] {
                return false;
            }
        }
    }
    true
}

const EASY: &str =
    "530070000600195000098000060800060003400803001700020006060000280000419005000080079";
const EASY_SOLVED: &str =
    "534678912672195348198342567859761423426853791713924856961537284287419635345286179";
const SEVENTEEN: &str =
    "000000010400000000020000000000050407008000300001090000300400200050100000000806000";
const SEVENTEEN_SOLVED: &str =
    "693784512487512936125963874932651487568247391741398625319475268856129743274836159";
const GUESS: &str =
    "010000009900682005000400003150030090060805000007000030000900008000020010006000400";
const GUESS_FIRST: &str =
    "000700009043002175600000000050030800060840000200000500001900360000506010000000002";
const GUESS_SOLVED: &str =
    "812753649943682175675491283154237896369845721287169534521974368438526917796318452";
const EXHAUSTED: &str =
    "000700600000002075600490000004200890009005020000060000520000300048000000000010400";
const EXHAUSTED_DEEP: &str =
    "810700000000002005070400200004030800309005001000160000000070060008500000090301400";
const MISLED: &str =
    "900300000000070000004000865009005300080000007000000002500700003000000010001003004";
const MISLED_RESULT: &str =
    "925368471168574239374192865719425386482936157653817942542781693637249518891653724";
const MISLED_SOLUTION: &str =
    "925386471618574239734291865179825346283469157456137982542718693367942518891653724";
const RESOLVED_AT_ONCE: &str =
    "081490072090830405537012009806529703075003086409706200950074608264300010708250934";
const RESOLVED_AT_ONCE_RESULT: &str =
    "681495372692837465537612869816529743175143186419786251953174628264388517718251934";

#[test]
fn driver_solves_by_propagation_alone() {
    let out = solve_sudoku_constraints_only(&grid(EASY));
    assert_eq!(out, Outcome::Solved(grid(EASY_SOLVED)));
}

#[test]
fn driver_on_domains_is_driver_on_grid() {
    let g = grid(EASY);
    assert_eq!(drive(&prep_inputs(&g)), solve_sudoku_constraints_only(&g));
    let h = grid(GUESS);
    assert_eq!(drive(&prep_inputs(&h)), solve_sudoku_constraints_only(&h));
}

#[test]
fn driver_returns_valid_full_grid_unchanged() {
    let g = grid(EASY_SOLVED);
    assert_eq!(solve_sudoku_constraints_only(&g), Outcome::Solved(g));
    assert_eq!(solve_sudoku(&g), Ok(g));
}

#[test]
fn driver_stalls_on_the_first_ambiguous_cell() {
    let out = solve_sudoku_constraints_only(&grid(GUESS));
    assert_eq!(out, Outcome::Stalled { row: 0, col: 0, candidates: vec![2, 4, 6, 8] });
    let out = solve_sudoku_constraints_only(&grid(GUESS_FIRST));
    assert_eq!(out, Outcome::Stalled { row: 0, col: 5, candidates: vec![3, 4] });
}

#[test]
fn driver_stalls_on_the_all_unknown_grid() {
    let g = Grid { cells: [[0u8; 9]; 9] };
    let out = solve_sudoku_constraints_only(&g);
    assert_eq!(
        out,
        Outcome::Stalled { row: 0, col: 0, candidates: vec![1, 2, 3, 4, 5, 6, 7, 8, 9] }
    );
}

#[test]
fn driver_reports_same_given_twice_in_a_row() {
    let mut g = grid(EASY);
    g.cells[0][8] = 5;
    assert_eq!(solve_sudoku_constraints_only(&g), Outcome::Unsolvable);
    assert_eq!(solve_sudoku(&g), Err(SudokuError::UnsolvableLine));
}

#[test]
fn driver_reports_same_given_twice_in_a_column_or_block() {
    let mut g = grid(EASY);
    g.cells[8][0] = 5;
    assert_eq!(solve_sudoku_constraints_only(&g), Outcome::Unsolvable);
    let mut h = grid(EASY);
    h.cells[2][0] = 3;
    assert_eq!(solve_sudoku_constraints_only(&h), Outcome::Unsolvable);
    assert_eq!(solve_sudoku(&h), Err(SudokuError::UnsolvableLine));
}

#[test]
fn search_solves_without_a_guess() {
    let solved = solve_sudoku(&grid(EASY)).unwrap();
    assert_eq!(solved, grid(EASY_SOLVED));
    assert!(is_valid(&solved));
}

#[test]
fn search_solves_a_seventeen_clue_puzzle() {
    let puzzle = grid(SEVENTEEN);
    let solved = solve_sudoku(&puzzle).unwrap();
    assert_eq!(solved, grid(SEVENTEEN_SOLVED));
    assert!(is_valid(&solved));
    assert!(keeps_givens(&puzzle, &solved));
}

#[test]
fn search_guesses_where_propagation_stalls() {
    let puzzle = grid(GUESS);
    // The first three candidates of the cell (0, 0) fail, the fourth is right.
    for wrong in [2u8, 4, 6] {
        let mut g = puzzle;
        g.cells[0][0] = wrong;
        assert_eq!(solve_sudoku(&g), Err(SudokuError::UnsolvableLine));
    }
    let solved = solve_sudoku(&puzzle).unwrap();
    assert_eq!(solved, grid(GUESS_SOLVED));
    assert_eq!(solved.cells[0][0], 8);
    assert!(is_valid(&solved));
    assert!(keeps_givens(&puzzle, &solved));
}

#[test]
fn search_commits_to_the_first_candidate_that_succeeds() {
    let puzzle = grid(GUESS_FIRST);
    let solved = solve_sudoku(&puzzle).unwrap();
    assert_eq!(solved, grid(GUESS_SOLVED));
    assert_eq!(solved.cells[0][5], 3);
    let mut first = puzzle;
    first.cells[0][5] = 3;
    assert_eq!(solve_sudoku(&first), Ok(solved));
}

#[test]
fn search_takes_the_lowest_solution_of_an_open_puzzle() {
    // The empty grid has many solutions: each guess takes the lowest candidate.
    let g = Grid { cells: [[0u8; 9]; 9] };
    let solved = solve_sudoku(&g).unwrap();
    assert!(is_valid(&solved));
    assert_eq!(solved.cells[0], [1, 2, 3, 4, 5, 6, 7, 8, 9]);
}

#[test]
fn search_fails_when_every_candidate_fails() {
    let g = grid(EXHAUSTED);
    assert_eq!(
        solve_sudoku_constraints_only(&g),
        Outcome::Stalled { row: 0, col: 0, candidates: vec![1, 2, 3, 8, 9] }
    );
    assert_eq!(solve_sudoku(&g), Err(SudokuError::SearchExhausted));
}

#[test]
fn search_fails_after_a_nested_guess() {
    let g = grid(EXHAUSTED_DEEP);
    assert_eq!(
        solve_sudoku_constraints_only(&g),
        Outcome::Stalled { row: 0, col: 5, candidates: vec![3, 9] }
    );
    assert_eq!(solve_sudoku(&g), Err(SudokuError::SearchExhausted));
}

#[test]
fn returned_grid_has_digits_and_keeps_givens() {
    for s in [EASY, SEVENTEEN, GUESS, GUESS_FIRST, RESOLVED_AT_ONCE] {
        let puzzle = grid(s);
        let solved = solve_sudoku(&puzzle).unwrap();
        assert!(solved.is_well_formed());
        assert!(keeps_givens(&puzzle, &solved));
        for r in 0..9 {
            for c in 0..9 {
                assert!(1 <= solved.cells[r][c] && solved.cells[r][c] <= 9);
            }
        }
    }
}

#[test]
fn returned_grid_of_a_solvable_puzzle_is_valid() {
    for s in [EASY, SEVENTEEN, GUESS, GUESS_FIRST, EASY_SOLVED] {
        assert!(is_valid(&solve_sudoku(&grid(s)).unwrap()));
    }
}

#[test]
fn last_cells_resolved_at_once_are_not_checked_again() {
    // Every unknown cell of this grid has one digit left after the first
    // pass, but three of them, in the second column, the same one: the grid
    // has no solution, and the driver reports the resolved grid all the same.
    let g = grid(RESOLVED_AT_ONCE);
    let out = solve_sudoku_constraints_only(&g);
    assert_eq!(out, Outcome::Solved(grid(RESOLVED_AT_ONCE_RESULT)));
    assert!(!is_valid(&grid(RESOLVED_AT_ONCE_RESULT)));
    let second_column: Vec<u8> =
        (0..9).map(|r| grid(RESOLVED_AT_ONCE_RESULT).cells[r][1]).collect();
    assert_eq!(second_column, vec![8, 9, 3, 1, 7, 1, 5, 6, 1]);
    // One more run, on the resolved grid, finds the conflict.
    assert_eq!(solve_sudoku_constraints_only(&grid(RESOLVED_AT_ONCE_RESULT)), Outcome::Unsolvable);
}

#[test]
fn wrong_guess_can_end_in_a_repeated_digit() {
    // This puzzle has solutions, but the search ends on a guess that has
    // none: the pass that resolves the last cells of it leaves the digit 6
    // twice in the first column.
    let puzzle = grid(MISLED);
    let solution = grid(MISLED_SOLUTION);
    assert!(is_valid(&solution));
    assert!(keeps_givens(&puzzle, &solution));
    let got = solve_sudoku(&puzzle).unwrap();
    assert_eq!(got, grid(MISLED_RESULT));
    assert!(keeps_givens(&puzzle, &got));
    assert!(!is_valid(&got));
    let first_column: Vec<u8> = (0..9).map(|r| got.cells[r][0]).collect();
    assert_eq!(first_column, vec![9, 1, 3, 7, 4, 6, 5, 6, 8]);
}

#[test]
fn error_messages_differ() {
    let all = [
        SudokuError::MalformedInput,
        SudokuError::UnsolvableLine,
        SudokuError::SearchExhausted,
    ];
    for a in all.iter() {
        assert!(!a.message().is_empty());
        for b in all.iter() {
            assert_eq!(a == b, a.message() == b.message());
        }
    }
    assert_eq!(SudokuError::MalformedInput.message(), "Not enough input");
    assert_eq!(SudokuError::UnsolvableLine.message(), "Unsolvable");
    assert_eq!(SudokuError::SearchExhausted.message(), "Unable to find a solution");
}

#[test]
fn parse_digit_reads_one_to_nine() {
    assert_eq!(parse_digit('1'), 1);
    assert_eq!(parse_digit('5'), 5);
    assert_eq!(parse_digit('9'), 9);
    assert_eq!(parse_digit('0'), 0);
    assert_eq!(parse_digit('.'), 0);
    assert_eq!(parse_digit(' '), 0);
    assert_eq!(parse_digit('x'), 0);
    assert_eq!(parse_digit('\n'), 0);
    assert_eq!(parse_digit('٣'), 0);
}

#[test]
fn parse_line_reads_nine_characters() {
    assert_eq!(parse_line("53..7...."), Ok([5, 3, 0, 0, 7, 0, 0, 0, 0]));
    assert_eq!(parse_line("123456789"), Ok([1, 2, 3, 4, 5, 6, 7, 8, 9]));
    assert_eq!(parse_line("000000000"), Ok([0; 9]));
    assert_eq!(parse_line("abc_ef-hi"), Ok([0; 9]));
}

#[test]
fn parse_line_ignores_what_follows_the_ninth_character() {
    assert_eq!(parse_line("1.3.5.7.9 and more"), Ok([1, 0, 3, 0, 5, 0, 7, 0, 9]));
    assert_eq!(parse_line("98765432112345"), Ok([9, 8, 7, 6, 5, 4, 3, 2, 1]));
}

#[test]
fn parse_line_counts_characters_not_bytes() {
    // Nine characters, one of them of two bytes.
    assert_eq!(parse_line("é23456789"), Ok([0, 2, 3, 4, 5, 6, 7, 8, 9]));
    // Eight characters in nine bytes.
    assert_eq!(parse_line("é2345678"), Err(SudokuError::MalformedInput));
}

#[test]
fn parse_line_rejects_short_lines() {
    assert_eq!(parse_line(""), Err(SudokuError::MalformedInput));
    assert_eq!(parse_line("12345678"), Err(SudokuError::MalformedInput));
    assert_eq!(parse_line("........"), Err(SudokuError::MalformedInput));
}

#[test]
fn parse_grid_reads_nine_lines() {
    let lines: Vec<String> = (0..9).map(|r| EASY[9 * r..9 * r + 9].replace('0', ".")).collect();
    assert_eq!(parse_grid(&lines), Ok(grid(EASY)));
    let mut more = lines.clone();
    more.push(String::from("ignored"));
    assert_eq!(parse_grid(&more), Ok(grid(EASY)));
}

#[test]
fn parse_grid_rejects_missing_or_short_lines() {
    let lines: Vec<String> = (0..9).map(|r| String::from(&EASY[9 * r..9 * r + 9])).collect();
    assert_eq!(parse_grid(&lines[0..8].to_vec()), Err(SudokuError::MalformedInput));
    assert_eq!(parse_grid(&Vec::new()), Err(SudokuError::MalformedInput));
    let mut short = lines.clone();
    short[8] = String::from("12345678");
    assert_eq!(parse_grid(&short), Err(SudokuError::MalformedInput));
    let mut first = lines.clone();
    first[0] = String::new();
    assert_eq!(parse_grid(&first), Err(SudokuError::MalformedInput));
}

#[test]
fn parsed_grid_is_solved() {
    let lines: Vec<String> = (0..9).map(|r| String::from(&EASY[9 * r..9 * r + 9])).collect();
    let g = parse_grid(&lines).unwrap();
    assert!(g.is_well_formed());
    assert_eq!(solve_sudoku(&g), Ok(grid(EASY_SOLVED)));
}
