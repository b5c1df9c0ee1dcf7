use classic::csp::{Constraint, CSP};
use fnv::FnvHashMap;

/// The constraint that two variables have different values.
#[derive(Clone, Debug, PartialEq, Eq)]
struct Differ(u8, u8);

impl Constraint<u8, i32> for Differ {
    // The two functions over the model are never called at run time.
    fn holds(&self, _: vstd::map::Map<u8, i32>) -> bool {
        unreachable!()
    }
    fn vars(&self) -> vstd::seq::Seq<u8> {
        unreachable!()
    }
    fn satisfied(&self, assignment: &FnvHashMap<u8, i32>) -> bool {
        match (assignment.get(&self.0), assignment.get(&self.1)) {
            (Some(a), Some(b)) => a != b,
            _ => true,
        }
    }
    fn variables(&self) -> Vec<u8> {
        vec![self.0, self.1]
    }
}

fn map_of<T: Clone>(pairs: &[(u8, T)]) -> FnvHashMap<u8, T> {
    let mut m = FnvHashMap::default();
    for (k, v) in pairs.iter() {
        m.insert(*k, v.clone());
    }
    m
}

fn problem(domains: &[(u8, Vec<i32>)]) -> CSP<u8, i32, Differ> {
    let variables: Vec<u8> = domains.iter().map(|p| p.0).collect();
    CSP::new(variables, map_of(domains))
}

#[test]
fn ex1() {
    ()
}

#[test]
fn a_new_problem_has_no_constraints() {
    let csp = problem(&[(1, vec![10, 20]), (2, vec![10]), (3, vec![])]);
    assert_eq!(csp.variables, vec![1, 2, 3]);
    assert_eq!(csp.domains, map_of(&[(1, vec![10, 20]), (2, vec![10]), (3, vec![])]));
    assert_eq!(csp.constraints, map_of(&[(1, vec![]), (2, vec![]), (3, vec![])]));
}

#[test]
fn a_constraint_is_put_on_each_of_its_variables() {
    let mut csp = problem(&[(1, vec![10, 20]), (2, vec![10]), (3, vec![])]);
    csp.add_constraint(Differ(1, 3));
    assert_eq!(
        csp.constraints,
        map_of(&[(1, vec![Differ(1, 3)]), (2, vec![]), (3, vec![Differ(1, 3)])])
    );
    csp.add_constraint(Differ(2, 1));
    assert_eq!(
        csp.constraints,
        map_of(&[
            (1, vec![Differ(1, 3), Differ(2, 1)]),
            (2, vec![Differ(2, 1)]),
            (3, vec![Differ(1, 3)])
        ])
    );
    // a variable that is named twice gets the constraint twice
    csp.add_constraint(Differ(2, 2));
    assert_eq!(csp.constraints[&2], vec![Differ(2, 1), Differ(2, 2), Differ(2, 2)]);
    assert_eq!(csp.variables, vec![1, 2, 3]);
    assert_eq!(csp.domains, map_of(&[(1, vec![10, 20]), (2, vec![10]), (3, vec![])]));
}

#[test]
fn the_first_solution_in_the_order_of_the_values_is_found() {
    let mut csp = problem(&[(1, vec![10, 20, 30]), (2, vec![10, 20]), (3, vec![10, 20, 30])]);
    csp.add_constraint(Differ(1, 2));
    csp.add_constraint(Differ(2, 3));
    csp.add_constraint(Differ(1, 3));
    let found = csp.backtracking_search(FnvHashMap::default());
    assert_eq!(found, Some(map_of(&[(1, 10), (2, 20), (3, 30)])));
    // with a value given, the others are fitted to it
    let found = csp.backtracking_search(map_of(&[(3, 10)]));
    assert_eq!(found, Some(map_of(&[(1, 30), (2, 20), (3, 10)])));
}

#[test]
fn the_search_backs_out_of_dead_ends() {
    // the first value of 1 leaves nothing for 2
    let mut csp = problem(&[(1, vec![10, 20]), (2, vec![10])]);
    csp.add_constraint(Differ(1, 2));
    assert_eq!(
        csp.backtracking_search(FnvHashMap::default()),
        Some(map_of(&[(1, 20), (2, 10)]))
    );
}

#[test]
fn no_solution_is_found_where_there_is_none() {
    let mut csp = problem(&[(1, vec![10, 20]), (2, vec![10, 20]), (3, vec![10, 20])]);
    csp.add_constraint(Differ(1, 2));
    csp.add_constraint(Differ(2, 3));
    csp.add_constraint(Differ(1, 3));
    assert_eq!(csp.backtracking_search(FnvHashMap::default()), None);
    // a variable without values cannot be assigned
    let csp = problem(&[(1, vec![10]), (2, vec![])]);
    assert_eq!(csp.backtracking_search(FnvHashMap::default()), None);
}

#[test]
fn a_complete_assignment_is_returned_as_it_is() {
    let mut csp = problem(&[(1, vec![10, 20]), (2, vec![10, 20])]);
    csp.add_constraint(Differ(1, 2));
    // it is not checked: no variable gets a value
    let given = map_of(&[(1, 10), (2, 10)]);
    assert_eq!(csp.backtracking_search(given.clone()), Some(given));
    // values given need not come from the domains
    let given = map_of(&[(1, 77)]);
    assert_eq!(csp.backtracking_search(given), Some(map_of(&[(1, 77), (2, 10)])));
}

#[test]
fn a_problem_without_variables_is_solved_by_the_empty_assignment() {
    let csp = problem(&[]);
    assert_eq!(csp.backtracking_search(FnvHashMap::default()), Some(FnvHashMap::default()));
}

#[test]
fn constraints_are_checked_only_for_the_variable_that_gets_a_value() {
    // the constraint sits on 1 and 2; both have values, 3 gets one freely
    let mut csp = problem(&[(1, vec![10]), (2, vec![10]), (3, vec![10, 20])]);
    csp.add_constraint(Differ(1, 2));
    let found = csp.backtracking_search(map_of(&[(1, 10), (2, 10)]));
    assert_eq!(found, Some(map_of(&[(1, 10), (2, 10), (3, 10)])));
}
