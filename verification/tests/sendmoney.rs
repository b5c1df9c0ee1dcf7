use classic::csp::Constraint;
use classic::sendmoney::{send_money_problem, solve_send_money, SendMoneyConstraint};
use fnv::FnvHashMap;

fn digits(pairs: &[(char, i8)]) -> FnvHashMap<u8, i8> {
    let mut m = FnvHashMap::default();
    for (c, d) in pairs.iter() {
        m.insert(*c as u8, *d);
    }
    m
}

fn puzzle() -> SendMoneyConstraint {
    SendMoneyConstraint("SENDMORY".bytes().collect())
}

const SOLUTION: [(char, i8); 8] =
    [('S', 9), ('E', 5), ('N', 6), ('D', 7), ('M', 1), ('O', 0), ('R', 8), ('Y', 2)];

#[test]
fn a_digit_must_not_stand_for_two_letters() {
    assert!(!puzzle().satisfied(&digits(&[('S', 3), ('E', 3)])));
    assert!(!puzzle().satisfied(&digits(&[('S', 1), ('E', 2), ('N', 3), ('D', 1)])));
    assert!(puzzle().satisfied(&digits(&[('S', 3), ('E', 4)])));
    assert!(puzzle().satisfied(&digits(&[])));
    assert!(puzzle().satisfied(&digits(&[('M', 1)])));
}

#[test]
fn a_full_assignment_must_add_up() {
    // 9567 + 1085 = 10652
    assert!(puzzle().satisfied(&digits(&SOLUTION)));
    // 9567 + 1085 is not 10653
    let mut wrong = SOLUTION;
    wrong[7] = ('Y', 3);
    assert!(!puzzle().satisfied(&digits(&wrong)));
    // 2817 + 0368 = 03185, with a leading zero
    let zero = [('S', 2), ('E', 8), ('N', 1), ('D', 7), ('M', 0), ('O', 3), ('R', 6), ('Y', 5)];
    assert!(puzzle().satisfied(&digits(&zero)));
}

#[test]
fn the_sum_is_checked_only_when_all_letters_have_digits() {
    let mut part = SOLUTION.to_vec();
    part.pop();
    assert!(puzzle().satisfied(&digits(&part)));
    part[0] = ('S', 4);
    assert!(puzzle().satisfied(&digits(&part)));
}

#[test]
fn eight_digits_for_other_letters_do_not_solve_the_puzzle() {
    let other =
        [('A', 9), ('E', 5), ('N', 6), ('D', 7), ('M', 1), ('O', 0), ('R', 8), ('Y', 2)];
    assert!(!puzzle().satisfied(&digits(&other)));
}

#[test]
fn the_constraint_is_about_the_letters() {
    assert_eq!(puzzle().variables(), "SENDMORY".bytes().collect::<Vec<u8>>());
    assert_eq!(puzzle().clone(), puzzle());
}

#[test]
fn the_problem_of_the_puzzle() {
    let csp = send_money_problem();
    assert_eq!(csp.variables, "SENDMORY".bytes().collect::<Vec<u8>>());
    assert_eq!(csp.domains.len(), 8);
    assert_eq!(csp.constraints.len(), 8);
    for v in "SENDMORY".bytes() {
        assert_eq!(csp.domains[&v], vec![0, 1, 2, 3, 4, 5, 6, 7, 8, 9]);
        assert_eq!(csp.constraints[&v], vec![puzzle()]);
    }
}

#[test]
fn the_puzzle_is_solved() {
    assert_eq!(solve_send_money(), Some(digits(&SOLUTION)));
}
