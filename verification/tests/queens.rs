use classic::csp::Constraint;
use classic::queens::{queens_problem, solve_queens, QueensConstraint};
use fnv::FnvHashMap;

fn rows(pairs: &[(i8, i8)]) -> FnvHashMap<i8, i8> {
    let mut m = FnvHashMap::default();
    for (c, r) in pairs.iter() {
        m.insert(*c, *r);
    }
    m
}

fn board(n: i8) -> QueensConstraint {
    QueensConstraint((0..n).collect())
}

#[test]
fn queens_in_one_row_attack() {
    assert!(!board(8).satisfied(&rows(&[(0, 3), (5, 3)])));
    assert!(!board(8).satisfied(&rows(&[(2, 0), (3, 0)])));
}

#[test]
fn queens_on_one_diagonal_attack() {
    assert!(!board(8).satisfied(&rows(&[(0, 0), (7, 7)])));
    assert!(!board(8).satisfied(&rows(&[(1, 5), (3, 3)])));
    assert!(!board(8).satisfied(&rows(&[(1, 3), (3, 5)])));
    assert!(!board(8).satisfied(&rows(&[(0, 1), (4, 6), (5, 5)])));
}

#[test]
fn other_queens_do_not_attack() {
    assert!(board(8).satisfied(&rows(&[])));
    assert!(board(8).satisfied(&rows(&[(4, 4)])));
    assert!(board(8).satisfied(&rows(&[(0, 0), (1, 2)])));
    assert!(board(8).satisfied(&rows(&[(0, 1), (1, 3), (2, 0), (3, 2)])));
    assert!(board(4).satisfied(&rows(&[(0, 1), (1, 3), (2, 0), (3, 2)])));
}

#[test]
fn a_queen_beyond_the_last_column_is_not_looked_at() {
    // the later queen of a pair is sought up to the column numbered as the
    // board has columns, and not beyond
    assert!(!board(4).satisfied(&rows(&[(0, 0), (4, 0)])));
    assert!(board(4).satisfied(&rows(&[(0, 0), (5, 0)])));
    assert!(board(4).satisfied(&rows(&[(5, 0), (6, 0)])));
    assert!(!board(4).satisfied(&rows(&[(-3, 2), (1, 2)])));
    assert!(board(0).satisfied(&rows(&[(0, 0), (1, 0)])));
    assert!(!board(1).satisfied(&rows(&[(0, 0), (1, 0)])));
    assert!(!board(127).satisfied(&rows(&[(-128, 127), (127, 127)])));
    assert!(!board(127).satisfied(&rows(&[(-128, -128), (127, 127)])));
    assert!(board(127).satisfied(&rows(&[(-128, -128), (127, 126)])));
}

#[test]
fn the_constraint_is_about_the_columns() {
    assert_eq!(board(5).variables(), vec![0, 1, 2, 3, 4]);
    assert_eq!(board(5).clone(), board(5));
    assert_eq!(board(0).variables(), Vec::<i8>::new());
}

#[test]
fn the_problem_of_four_queens() {
    let csp = queens_problem(4);
    assert_eq!(csp.variables, vec![0, 1, 2, 3]);
    for c in 0..4 {
        assert_eq!(csp.domains[&c], vec![0, 1, 2, 3]);
        assert_eq!(csp.constraints[&c], vec![board(4)]);
    }
    assert_eq!(csp.domains.len(), 4);
    assert_eq!(csp.constraints.len(), 4);
    assert_eq!(
        csp.backtracking_search(rows(&[])),
        Some(rows(&[(0, 1), (1, 3), (2, 0), (3, 2)]))
    );
}

#[test]
fn eight_queens_with_one_given() {
    assert_eq!(
        solve_queens(8, rows(&[(1, 2)])),
        Some(rows(&[(0, 4), (1, 2), (2, 0), (3, 5), (4, 7), (5, 1), (6, 3), (7, 6)]))
    );
}

#[test]
fn queens_on_boards_of_several_sizes() {
    assert_eq!(solve_queens(0, rows(&[])), Some(rows(&[])));
    assert_eq!(solve_queens(1, rows(&[])), Some(rows(&[(0, 0)])));
    assert_eq!(solve_queens(2, rows(&[])), None);
    assert_eq!(solve_queens(3, rows(&[])), None);
    assert_eq!(solve_queens(4, rows(&[])), Some(rows(&[(0, 1), (1, 3), (2, 0), (3, 2)])));
    assert_eq!(
        solve_queens(6, rows(&[])),
        Some(rows(&[(0, 1), (1, 3), (2, 5), (3, 0), (4, 2), (5, 4)]))
    );
    assert_eq!(
        solve_queens(8, rows(&[])),
        Some(rows(&[(0, 0), (1, 4), (2, 7), (3, 5), (4, 2), (5, 6), (6, 1), (7, 3)]))
    );
}

#[test]
fn queens_that_are_given_are_kept() {
    assert_eq!(
        solve_queens(5, rows(&[(0, 2)])),
        Some(rows(&[(0, 2), (1, 0), (2, 3), (3, 1), (4, 4)]))
    );
    assert_eq!(solve_queens(4, rows(&[(0, 0)])), None);
    // a full board that is given is returned unchecked
    let given = rows(&[(0, 1), (1, 1), (2, 1), (3, 1)]);
    assert_eq!(solve_queens(4, given.clone()), Some(given));
}

#[test]
fn every_solution_found_is_a_placement() {
    for n in 0..=9i8 {
        if let Some(found) = solve_queens(n, rows(&[])) {
            assert_eq!(found.len(), n as usize);
            for c1 in 0..n {
                let r1 = found[&c1];
                assert!(0 <= r1 && r1 < n);
                for c2 in (c1 + 1)..n {
                    let r2 = found[&c2];
                    assert!(r1 != r2);
                    assert!((r1 - r2).abs() != c2 - c1);
                }
            }
        } else {
            assert!(n == 2 || n == 3);
        }
    }
}
