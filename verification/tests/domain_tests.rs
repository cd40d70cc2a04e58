use sudoku_solver::constraint::Constraint;
use sudoku_solver::domain::Domain;

fn mask(digits: &[u8]) -> usize {
    let mut m = 0usize;
    for d in digits {
        m |= 1 << (d - 1);
    }
    m
}

fn reachable(c: &Constraint) -> Vec<usize> {
    (0..512).filter(|k| c.reach[*k]).collect()
}

#[test]
fn empty_domain_has_no_digit() {
    let d = Domain::empty();
    assert_eq!(d.count(), 0);
    assert_eq!(d.digits(), Vec::<u8>::new());
    for v in 0..=10u8 {
        assert!(!d.contains(v));
    }
}

#[test]
fn full_domain_has_every_digit() {
    let d = Domain::full();
    assert_eq!(d.count(), 9);
    assert_eq!(d.digits(), vec![1, 2, 3, 4, 5, 6, 7, 8, 9]);
    assert!(!d.contains(0));
    assert!(!d.contains(10));
    for v in 1..=9u8 {
        assert!(d.contains(v));
    }
}

#[test]
fn single_domain_has_one_digit() {
    for v in 1..=9u8 {
        let d = Domain::single(v);
        assert_eq!(d.count(), 1);
        assert_eq!(d.digits(), vec![v]);
        for w in 1..=9u8 {
            assert_eq!(d.contains(w), w == v);
        }
    }
}

#[test]
fn from_digits_ignores_what_is_no_digit() {
    let d = Domain::from_digits(&[7, 0, 3, 12, 3, 255]);
    assert_eq!(d.digits(), vec![3, 7]);
    assert_eq!(d.count(), 2);
    assert_eq!(d, Domain::from_digits(&[3, 7]));
    assert_eq!(Domain::from_digits(&[]), Domain::empty());
    assert_eq!(Domain::from_digits(&[9, 8, 7, 6, 5, 4, 3, 2, 1]), Domain::full());
}

#[test]
fn digits_come_in_ascending_order() {
    let d = Domain::from_digits(&[9, 1, 5, 2]);
    assert_eq!(d.digits(), vec![1, 2, 5, 9]);
}

#[test]
fn intersect_keeps_common_digits() {
    let a = Domain::from_digits(&[1, 2, 3, 9]);
    let b = Domain::from_digits(&[2, 3, 4, 8]);
    assert_eq!(a.intersect(&b).digits(), vec![2, 3]);
    assert_eq!(a.intersect(&Domain::empty()), Domain::empty());
    assert_eq!(a.intersect(&Domain::full()), a);
    assert_eq!(a.intersect(&b), b.intersect(&a));
}

#[test]
fn intersect_ignores_bits_above_the_ninth() {
    let a = Domain { bits: 0xffff };
    let b = Domain { bits: 0xfe05 };
    assert_eq!(a.count(), 9);
    assert_eq!(a.intersect(&b).digits(), vec![1, 3]);
}

#[test]
fn start_reaches_only_the_empty_set() {
    let c = Constraint::start();
    assert_eq!(c.pos, 0);
    assert_eq!(reachable(&c), vec![0]);
}

#[test]
fn goal_reaches_only_the_full_set() {
    let c = Constraint::goal();
    assert_eq!(c.pos, 9);
    assert_eq!(reachable(&c), vec![511]);
}

#[test]
fn fwd_adds_one_permitted_digit() {
    let c = Constraint::start().fwd(&Domain::from_digits(&[2, 5]));
    assert_eq!(c.pos, 1);
    assert_eq!(reachable(&c), vec![mask(&[2]), mask(&[5])]);
    let c2 = c.fwd(&Domain::from_digits(&[2, 3]));
    assert_eq!(c2.pos, 2);
    let mut want = vec![mask(&[2, 3]), mask(&[5, 2]), mask(&[5, 3])];
    want.sort();
    assert_eq!(reachable(&c2), want);
}

#[test]
fn fwd_with_empty_domain_reaches_nothing() {
    let c = Constraint::start().fwd(&Domain::empty());
    assert_eq!(reachable(&c), Vec::<usize>::new());
}

#[test]
fn fwd_does_not_use_a_digit_twice() {
    let c = Constraint::start().fwd(&Domain::single(4)).fwd(&Domain::single(4));
    assert_eq!(reachable(&c), Vec::<usize>::new());
}

#[test]
fn bwd_removes_one_permitted_digit() {
    let c = Constraint::goal().bwd(&Domain::from_digits(&[1, 9]));
    assert_eq!(c.pos, 8);
    let mut want = vec![511 & !mask(&[1]), 511 & !mask(&[9])];
    want.sort();
    assert_eq!(reachable(&c), want);
    let c2 = c.bwd(&Domain::single(9));
    assert_eq!(c2.pos, 7);
    assert_eq!(reachable(&c2), vec![511 & !mask(&[1, 9])]);
}

#[test]
fn out_names_the_digits_that_join_both_sides() {
    let left = Constraint::start().fwd(&Domain::from_digits(&[1, 2]));
    let right = Constraint::goal()
        .bwd(&Domain::full())
        .bwd(&Domain::full())
        .bwd(&Domain::full())
        .bwd(&Domain::full())
        .bwd(&Domain::full())
        .bwd(&Domain::full())
        .bwd(&Domain::from_digits(&[3, 4]));
    assert_eq!(right.pos, 2);
    // left holds {1} and {2}; right holds the pairs that leave seven digits
    // of which one is 3 or 4 for the third cell.
    let got = left.out(&right);
    assert_eq!(got.digits(), vec![1, 2, 3, 4, 5, 6, 7, 8, 9]);
    let narrow = Constraint::goal()
        .bwd(&Domain::single(9))
        .bwd(&Domain::single(8))
        .bwd(&Domain::single(7))
        .bwd(&Domain::single(6))
        .bwd(&Domain::single(5))
        .bwd(&Domain::single(4))
        .bwd(&Domain::single(3));
    assert_eq!(reachable(&narrow), vec![mask(&[1, 2])]);
    assert_eq!(left.out(&narrow).digits(), vec![1, 2]);
}

#[test]
fn out_toggles_a_digit_out_as_well_as_in() {
    // {1, 2} on the left and {1} on the right differ by the digit 2.
    let left = Constraint::start().fwd(&Domain::single(1)).fwd(&Domain::single(2));
    let right = Constraint::start().fwd(&Domain::single(1));
    assert_eq!(left.out(&right).digits(), vec![2]);
    assert_eq!(right.out(&left).digits(), vec![2]);
}
