use sudoku_solver::domain::Domain;
use sudoku_solver::line::Line;
use sudoku_solver::propagate::check_constraints;

fn line(cells: [&[u8]; 9]) -> Line {
    let mut out = [Domain::empty(); 9];
    for i in 0..9 {
        out[i] = Domain::from_digits(cells[i]);
    }
    Line { cells: out }
}

fn digits(l: &Line) -> Vec<Vec<u8>> {
    l.cells.iter().map(|d| d.digits()).collect()
}

const ALL: &[u8] = &[1, 2, 3, 4, 5, 6, 7, 8, 9];
const MIXED: [&[u8]; 9] =
    [&[1, 4, 7], &[2, 4], &[4, 7, 9], &[1, 2, 3], &[3, 5, 6], &[6, 8], &[5, 8, 9], &[1, 9], &[2, 6]];
const STEPS: [&[u8]; 9] =
    [&[1, 2, 3], &[1, 2], &[1, 2], &[3, 4], &[4, 5, 6], &[5, 6], &[6, 7, 8, 9], &[7, 8], &[8, 9]];
const RINGS: [&[u8]; 9] =
    [&[2, 9], &[1, 9], &[1, 2], &[3, 4, 5], &[3, 4, 5], &[3, 4, 5, 6], &[6, 7], &[7, 8], &[6, 8, 9]];

fn enumerate(l: &Line, pos: usize, used: u16, cur: &mut [u8; 9], keep: &mut [[bool; 10]; 9]) {
    if pos == 9 {
        for i in 0..9 {
            keep[i][cur[i] as usize] = true;
        }
        return;
    }
    for d in 1..=9u8 {
        if used & (1 << d) == 0 && l.cells[pos].contains(d) {
            cur[pos] = d;
            enumerate(l, pos + 1, used | (1 << d), cur, keep);
        }
    }
}

// The digits that some filling of the line gives to each cell, by plain
// enumeration of the fillings.
fn supported_by_enumeration(l: &Line) -> Vec<Vec<u8>> {
    let mut keep = [[false; 10]; 9];
    enumerate(l, 0, 0, &mut [0u8; 9], &mut keep);
    (0..9).map(|i| (1..=9u8).filter(|d| keep[i][*d as usize]).collect()).collect()
}

#[test]
fn full_line_stays_full() {
    let l = line([ALL; 9]);
    assert_eq!(check_constraints(&l), l);
}

#[test]
fn resolved_line_stays_as_it_is() {
    let l = line([&[3], &[1], &[4], &[5], &[9], &[2], &[6], &[8], &[7]]);
    assert_eq!(check_constraints(&l), l);
}

#[test]
fn given_digit_leaves_the_other_cells() {
    let l = line([&[5], ALL, ALL, ALL, ALL, ALL, ALL, ALL, ALL]);
    let out = check_constraints(&l);
    assert_eq!(out.cells[0].digits(), vec![5]);
    for i in 1..9 {
        assert_eq!(out.cells[i].digits(), vec![1, 2, 3, 4, 6, 7, 8, 9]);
    }
}

#[test]
fn pair_of_cells_claims_its_two_digits() {
    let l = line([&[1, 2], &[1, 2], &[1, 2, 3], ALL, ALL, ALL, ALL, ALL, ALL]);
    let rest: Vec<u8> = vec![4, 5, 6, 7, 8, 9];
    assert_eq!(
        digits(&check_constraints(&l)),
        vec![
            vec![1, 2],
            vec![1, 2],
            vec![3],
            rest.clone(),
            rest.clone(),
            rest.clone(),
            rest.clone(),
            rest.clone(),
            rest.clone()
        ]
    );
}

#[test]
fn digit_with_one_place_is_put_there() {
    let low: &[u8] = &[1, 2, 3, 4, 5, 6, 7, 8];
    let l = line([low, low, low, low, ALL, low, low, low, low]);
    let out = check_constraints(&l);
    for i in 0..9 {
        if i == 4 {
            assert_eq!(out.cells[i].digits(), vec![9]);
        } else {
            assert_eq!(out.cells[i].digits(), low.to_vec());
        }
    }
}

#[test]
fn three_cells_claim_three_digits() {
    let l = line([&[1, 2], &[2, 3], &[1, 3], &[1, 2, 3, 4], &[4, 5], ALL, ALL, ALL, ALL]);
    let rest: Vec<u8> = vec![6, 7, 8, 9];
    assert_eq!(
        digits(&check_constraints(&l)),
        vec![
            vec![1, 2],
            vec![2, 3],
            vec![1, 3],
            vec![4],
            vec![5],
            rest.clone(),
            rest.clone(),
            rest.clone(),
            rest.clone()
        ]
    );
}

#[test]
fn chain_resolves_from_the_last_cell() {
    let l = line([&[1, 2], &[2, 3], &[3, 4], &[4, 5], &[5, 6], &[6, 7], &[7, 8], &[8, 9], &[9]]);
    let want: Vec<Vec<u8>> = (1..=9u8).map(|d| vec![d]).collect();
    assert_eq!(digits(&check_constraints(&l)), want);
}

#[test]
fn narrowing_on_the_right_reaches_the_left() {
    let l = line([ALL, ALL, ALL, ALL, ALL, ALL, &[1, 2, 3], &[1, 2], &[1, 2]]);
    let rest: Vec<u8> = vec![4, 5, 6, 7, 8, 9];
    assert_eq!(
        digits(&check_constraints(&l)),
        vec![
            rest.clone(),
            rest.clone(),
            rest.clone(),
            rest.clone(),
            rest.clone(),
            rest.clone(),
            vec![3],
            vec![1, 2],
            vec![1, 2]
        ]
    );
}

#[test]
fn same_given_twice_empties_the_line() {
    let l = line([&[5], &[5], ALL, ALL, ALL, ALL, ALL, ALL, ALL]);
    let out = check_constraints(&l);
    for i in 0..9 {
        assert_eq!(out.cells[i], Domain::empty());
    }
}

#[test]
fn three_cells_for_two_digits_empty_the_line() {
    let l = line([&[1, 2], &[1, 2], &[1, 2], ALL, ALL, ALL, ALL, ALL, ALL]);
    let out = check_constraints(&l);
    for i in 0..9 {
        assert_eq!(out.cells[i].count(), 0);
    }
}

#[test]
fn empty_cell_empties_the_line() {
    let l = line([ALL, ALL, ALL, &[], ALL, ALL, ALL, ALL, ALL]);
    let out = check_constraints(&l);
    for i in 0..9 {
        assert_eq!(out.cells[i], Domain::empty());
    }
}

#[test]
fn result_is_within_the_input() {
    let l = line(MIXED);
    let out = check_constraints(&l);
    for i in 0..9 {
        assert_eq!(out.cells[i].intersect(&l.cells[i]), out.cells[i]);
    }
}

#[test]
fn result_is_what_enumeration_gives() {
    let lines = [
        line(MIXED),
        line([&[1, 2], &[1, 2], &[1, 2, 3], ALL, ALL, ALL, ALL, ALL, ALL]),
        line(STEPS),
        line(RINGS),
        line([&[1, 2], &[1, 2], &[1, 2], ALL, ALL, ALL, ALL, ALL, ALL]),
    ];
    for l in lines.iter() {
        assert_eq!(digits(&check_constraints(l)), supported_by_enumeration(l));
    }
}

#[test]
fn pruning_twice_changes_nothing_more() {
    let l = line(STEPS);
    let once = check_constraints(&l);
    assert_eq!(check_constraints(&once), once);
}
