//! The queens problem: one queen in each column of a board, none attacking
//! another, as a constraint satisfaction problem.

use crate::csp::{
    allowed_in_part, candidate, lemma_search_complete, lemma_search_sound, lemma_unassigned,
    lemma_unassigned_distinct, map_contains_key, map_get, map_insert, map_keys, standing,
    unassigned, Constraint, CSP,
};
use fnv::FnvHashMap;
use vstd::prelude::*;
use vstd::std_specs::hash::obeys_key_model;

verus! {

/// The constraint that no two queens attack each other. It holds the
/// columns of the board, which are numbered as the problem numbers its
/// variables; the value of a column is the row of its queen.
#[derive(Hash, PartialEq, Eq, Debug)]
pub struct QueensConstraint(pub Vec<i8>);

impl Clone for QueensConstraint {
    fn clone(&self) -> (copy: QueensConstraint)
        ensures
            copy.0@ == self.0@,
    {
        let columns = self.0.clone();
        assert(columns@ == self.0@);
        QueensConstraint(columns)
    }
}

/// The distance between two numbers.
pub open spec fn distance(a: int, b: int) -> int {
    if a < b {
        b - a
    } else {
        a - b
    }
}

/// Whether queens in the two cells attack each other: they stand in the
/// same row, or on a diagonal.
pub open spec fn attacks(c1: int, r1: int, c2: int, r2: int) -> bool {
    r1 == r2 || distance(r1, r2) == distance(c1, c2)
}

/// Whether no queen attacks a queen in a later column up to column `last`.
pub open spec fn no_attack(a: Map<i8, i8>, last: int) -> bool {
    forall|c1: i8, c2: i8|
        #![trigger a.contains_key(c1), a.contains_key(c2)]
        a.contains_key(c1) && a.contains_key(c2) && c1 < c2 <= last ==> !attacks(
            c1 as int,
            a[c1] as int,
            c2 as int,
            a[c2] as int,
        )
}

/// Returns the distance between two numbers.
fn gap(a: i8, b: i8) -> (d: i16)
    ensures
        d == distance(a as int, b as int),
{
    if a < b {
        b as i16 - a as i16
    } else {
        a as i16 - b as i16
    }
}

impl Constraint<i8, i8> for QueensConstraint {
    open spec fn holds(&self, assignment: Map<i8, i8>) -> bool {
        no_attack(assignment, self.0.len() as int)
    }

    open spec fn vars(&self) -> Seq<i8> {
        self.0@
    }

    fn satisfied(&self, assignment: &FnvHashMap<i8, i8>) -> bool {
        let last: i16 = if self.0.len() > 127 {
            127
        } else {
            self.0.len() as i16
        };
        let columns = map_keys(assignment);
        let mut i: usize = 0;
        // q1c = queen 1 column, q1r = queen 1 row
        while i < columns.len()
            invariant
                obeys_key_model::<i8>(),
                i <= columns.len(),
                columns@.to_set() == assignment@.dom(),
                last == if self.0.len() > 127 {
                    127
                } else {
                    self.0.len() as int
                },
                forall|k: int, c2: i8|
                    #![trigger columns@[k], assignment@.contains_key(c2)]
                    0 <= k < i && assignment@.contains_key(c2) && columns@[k] < c2 <= last
                        ==> !attacks(
                        columns@[k] as int,
                        assignment@[columns@[k]] as int,
                        c2 as int,
                        assignment@[c2] as int,
                    ),
            decreases columns.len() - i,
        {
            let q1c = columns[i];
            proof {
                assert(columns@.contains(columns@[i as int]));
                assert(columns@.to_set().contains(q1c));
            }
            let q1r = *map_get(assignment, &q1c).unwrap();
            let mut q2c: i16 = q1c as i16 + 1;
            while q2c <= last
                invariant
                    obeys_key_model::<i8>(),
                    q1c < q2c <= 128,
                    last <= 127,
                    last <= self.0.len(),
                    assignment@.contains_key(q1c),
                    q1r == assignment@[q1c],
                    forall|c2: i8|
                        #![trigger assignment@.contains_key(c2)]
                        assignment@.contains_key(c2) && q1c < c2 < q2c ==> !attacks(
                            q1c as int,
                            q1r as int,
                            c2 as int,
                            assignment@[c2] as int,
                        ),
                ensures
                    forall|c2: i8|
                        #![trigger assignment@.contains_key(c2)]
                        assignment@.contains_key(c2) && q1c < c2 <= last ==> !attacks(
                            q1c as int,
                            q1r as int,
                            c2 as int,
                            assignment@[c2] as int,
                        ),
                decreases last + 1 - q2c,
            {
                let column = q2c as i8;
                if map_contains_key(assignment, &column) {
                    let q2r = *map_get(assignment, &column).unwrap();
                    if q1r == q2r {
                        proof {
                            assert(assignment@.contains_key(q1c) && assignment@.contains_key(
                                column,
                            ));
                            assert(attacks(q1c as int, q1r as int, column as int, q2r as int));
                        }
                        return false;
                    } else if gap(q1r, q2r) == gap(q1c, column) {
                        proof {
                            assert(assignment@.contains_key(q1c) && assignment@.contains_key(
                                column,
                            ));
                            assert(attacks(q1c as int, q1r as int, column as int, q2r as int));
                        }
                        return false;
                    }
                }
                q2c += 1;
            }
            i += 1;
        }
        proof {
            assert forall|c1: i8, c2: i8|
                #![trigger assignment@.contains_key(c1), assignment@.contains_key(c2)]
                assignment@.contains_key(c1) && assignment@.contains_key(c2) && c1 < c2
                    <= self.0.len() implies !attacks(
                c1 as int,
                assignment@[c1] as int,
                c2 as int,
                assignment@[c2] as int,
            ) by {
                assert(columns@.to_set().contains(c1));
                let k = choose|k: int| 0 <= k < columns@.len() && columns@[k] == c1;
                assert(columns@[k] < c2 <= last);
            }
        }
        true
    }

    fn variables(&self) -> Vec<i8> {
        let columns = self.0.clone();
        assert(columns@ == self.0@);
        columns
    }
}

/// The columns of a board of `n` columns, from 0 on.
pub open spec fn columns(n: int) -> Seq<i8> {
    Seq::new(n as nat, |i: int| i as i8)
}

/// Whether `csp` is the problem of `n` queens: its variables are the
/// columns, the domain of each column are the rows, numbered as the columns,
/// and each column has one constraint, that no two queens attack each other.
pub open spec fn is_queens_problem(csp: CSP<i8, i8, QueensConstraint>, n: int) -> bool {
    &&& csp.wf()
    &&& csp.variables@ == columns(n)
    &&& forall|v: i8| #[trigger] csp.domains@.contains_key(v) <==> 0 <= v < n
    &&& forall|v: i8| 0 <= v < n ==> (#[trigger] csp.domains@[v])@ == columns(n)
    &&& forall|v: i8| #[trigger] csp.constraints@.contains_key(v) <==> 0 <= v < n
    &&& forall|v: i8|
        0 <= v < n ==> (#[trigger] csp.constraints@[v])@.len() == 1 && csp.constraints@[v]@[0].0@
            == columns(n)
}

/// Whether `result` places a queen in each of `n` columns, in a row of the
/// board, and keeps the queens of `initial`.
pub open spec fn placed(result: Map<i8, i8>, n: int, initial: Map<i8, i8>) -> bool {
    &&& forall|c: i8| #[trigger] result.contains_key(c) <==> 0 <= c < n
    &&& forall|c: i8| #[trigger] initial.contains_key(c) ==> result[c] == initial[c]
    &&& forall|c: i8|
        0 <= c < n && !initial.contains_key(c) ==> 0 <= #[trigger] result[c] < n
}

/// Returns the columns of a board of `n` columns.
fn board_columns(n: i8) -> (vars: Vec<i8>)
    requires
        n >= 0,
    ensures
        vars@ == columns(n as int),
{
    let mut vars: Vec<i8> = Vec::new();
    let mut c: i8 = 0;
    while c < n
        invariant
            0 <= c <= n,
            vars@ == columns(c as int),
        decreases n - c,
    {
        vars.push(c);
        c += 1;
        assert(vars@ == columns(c as int));
    }
    vars
}

/// Makes the problem of `n` queens.
pub fn queens_problem(n: i8) -> (csp: CSP<i8, i8, QueensConstraint>)
    requires
        n >= 0,
    ensures
        is_queens_problem(csp, n as int),
{
    broadcast use vstd::std_specs::hash::group_hash_axioms;

    let vars = board_columns(n);
    let mut domains: FnvHashMap<i8, Vec<i8>> = FnvHashMap::default();
    let mut i: usize = 0;
    while i < vars.len()
        invariant
            obeys_key_model::<i8>(),
            n >= 0,
            i <= vars.len(),
            vars@ == columns(n as int),
            forall|v: i8| #[trigger] domains@.contains_key(v) <==> 0 <= v < i,
            forall|v: i8| 0 <= v < i ==> (#[trigger] domains@[v])@ == columns(n as int),
        decreases vars.len() - i,
    {
        let rows = vars.clone();
        assert(rows@ == vars@);
        map_insert(&mut domains, vars[i], rows);
        i += 1;
    }
    let mut csp: CSP<i8, i8, QueensConstraint> = CSP::new(vars.clone(), domains);
    let constraint = QueensConstraint(vars);
    let ghost before = csp.constraints@;
    proof {
        assert(csp.variables@ == columns(n as int));
        assert forall|k: int| 0 <= k < constraint.vars().len() implies csp.variables@.contains(
            #[trigger] constraint.vars()[k],
        ) by {
            assert(csp.variables@[k] == constraint.vars()[k]);
        }
    }
    csp.add_constraint(constraint);
    proof {
        let all = columns(n as int);
        assert(all.no_duplicates());
        all.lemma_multiset_has_no_duplicates();
        assert forall|v: i8| #[trigger] csp.constraints@.contains_key(v) <==> 0 <= v < n by {
            assert(csp.constraints@.contains_key(v) <==> before.dom().contains(v));
            assert(before.contains_key(v) <==> all.contains(v));
            if all.contains(v) {
                let k = choose|k: int| 0 <= k < all.len() && all[k] == v;
            }
            if 0 <= v < n {
                assert(all[v as int] == v);
            }
        }
        assert forall|v: i8| 0 <= v < n implies (#[trigger] csp.constraints@[v])@.len() == 1
            && csp.constraints@[v]@[0].0@ == all by {
            assert(all[v as int] == v);
            assert(all.contains(v));
            vstd::seq_lib::to_multiset_contains(all, v);
            assert(all.to_multiset().count(v) == 1);
            assert(csp.constraints@.contains_key(v));
            assert(before[v]@.len() == 0);
            assert(cloned(constraint, csp.constraints@[v]@[0]));
        }
    }
    csp
}

/// A solution of the problem of `n` queens places a queen in every column,
/// in a row of the board, keeps the queens that were given, and, where a
/// queen was placed at all, no two queens attack each other.
pub proof fn lemma_queens_solution(
    problem: CSP<i8, i8, QueensConstraint>,
    n: int,
    initial: Map<i8, i8>,
)
    requires
        0 <= n <= i8::MAX,
        is_queens_problem(problem, n),
        forall|c: i8| #[trigger] initial.contains_key(c) ==> 0 <= c < n,
        problem.solution(initial) is Some,
    ensures
        placed(problem.solution(initial)->0, n, initial),
        (exists|c: i8| 0 <= c < n && !initial.contains_key(c)) ==> no_attack(
            problem.solution(initial)->0,
            n,
        ),
{
    let vars = problem.variables@;
    let rest = unassigned(vars, initial, vars.len() as int);
    let r = problem.solution(initial)->0;
    lemma_search_sound(problem.domain_map(), problem.constraint_map(), initial, rest);
    lemma_unassigned(vars, initial, vars.len() as int);
    assert forall|c: i8| #[trigger] r.contains_key(c) <==> 0 <= c < n by {
        if rest.contains(c) {
            let i = choose|i: int| 0 <= i < vars.len() && vars[i] == c && !initial.contains_key(c);
        }
        if 0 <= c < n && !initial.contains_key(c) {
            assert(vars[c as int] == c);
            assert(rest.contains(c));
            assert(rest.to_set().contains(c));
        }
        assert(r.dom().contains(c) <==> (initial.dom().contains(c) || rest.to_set().contains(c)));
    }
    assert forall|c: i8| #[trigger] initial.contains_key(c) implies r[c] == initial[c] by {
        if rest.contains(c) {
            let i = choose|i: int| 0 <= i < vars.len() && vars[i] == c && !initial.contains_key(c);
        }
    }
    assert forall|c: i8| 0 <= c < n && !initial.contains_key(c) implies 0 <= #[trigger] r[c]
        < n by {
        assert(vars[c as int] == c);
        assert(rest.contains(c));
        let k = choose|k: int| 0 <= k < rest.len() && rest[k] == c;
        assert(problem.domain_map()[rest[k]].contains(r[rest[k]]));
        assert(problem.domain_map()[c] == columns(n));
        let j = choose|j: int| 0 <= j < columns(n).len() && columns(n)[j] == r[c];
    }
    if exists|c: i8| 0 <= c < n && !initial.contains_key(c) {
        let c = choose|c: i8| 0 <= c < n && !initial.contains_key(c);
        assert(vars[c as int] == c);
        assert(rest.contains(c));
        let last = rest.last();
        assert(rest.contains(last)) by {
            assert(rest[rest.len() - 1] == last);
        }
        let i = choose|i: int| 0 <= i < vars.len() && vars[i] == last && !initial.contains_key(last);
        assert(0 <= last < n);
        assert(problem.constraints@.contains_key(last));
        let stored = problem.constraint_map()[last];
        assert(stored == problem.constraints@[last]@);
        assert(stored[0].holds(r));
    }
}

/// Where the problem of `n` queens has no solution, no placement of queens
/// in all columns that keeps the queens given is free of attacks.
pub proof fn lemma_queens_no_solution(
    problem: CSP<i8, i8, QueensConstraint>,
    n: int,
    initial: Map<i8, i8>,
    r: Map<i8, i8>,
)
    requires
        0 <= n <= i8::MAX,
        is_queens_problem(problem, n),
        forall|c: i8| #[trigger] initial.contains_key(c) ==> 0 <= c < n,
        problem.solution(initial) is None,
        placed(r, n, initial),
    ensures
        !no_attack(r, n),
{
    let vars = problem.variables@;
    let rest = unassigned(vars, initial, vars.len() as int);
    let domains = problem.domain_map();
    let constraints = problem.constraint_map();
    lemma_unassigned(vars, initial, vars.len() as int);
    assert(vars.no_duplicates());
    lemma_unassigned_distinct(vars, initial, vars.len() as int);
    assert forall|k: int| 0 <= k < rest.len() implies !initial.contains_key(
        #[trigger] rest[k],
    ) && 0 <= rest[k] < n by {
        assert(rest.contains(rest[k]));
        let i = choose|i: int|
            0 <= i < vars.len() && vars[i] == rest[k] && !initial.contains_key(rest[k]);
    }
    assert(candidate(domains, initial, rest, r)) by {
        assert forall|c: i8| r.dom().contains(c) <==> initial.dom().union(rest.to_set()).contains(
            c,
        ) by {
            if rest.contains(c) {
                let k = choose|k: int| 0 <= k < rest.len() && rest[k] == c;
            }
            if 0 <= c < n && !initial.contains_key(c) {
                assert(vars[c as int] == c);
                assert(rest.contains(c));
            }
            assert(r.contains_key(c) <==> 0 <= c < n);
        }
        assert(r.dom() == initial.dom().union(rest.to_set()));
        assert forall|k: int| 0 <= k < rest.len() implies domains[#[trigger] rest[k]].contains(
            r[rest[k]],
        ) by {
            let c = rest[k];
            assert(0 <= r[c] < n);
            assert(domains[c] == columns(n));
            assert(columns(n)[r[c] as int] == r[c]);
        }
    }
    if no_attack(r, n) {
        assert(allowed_in_part(constraints, initial, rest, r)) by {
            assert forall|k: int, j: int|
                #![trigger constraints[rest[k]][j]]
                0 <= k < rest.len() && 0 <= j < constraints[rest[k]].len()
                    && constraints[rest[k]][j].holds(r) implies constraints[rest[k]][j].holds(
                standing(initial, r, rest, k),
            ) by {
                let c = rest[k];
                assert(constraints[c] == problem.constraints@[c]@);
                assert(constraints[c][j].0@ == columns(n));
            }
        }
        lemma_search_complete(domains, constraints, initial, rest, r);
        let (k, j) = choose|k: int, j: int|
            #![trigger constraints[rest[k]][j]]
            0 <= k < rest.len() && 0 <= j < constraints[rest[k]].len()
                && !constraints[rest[k]][j].holds(r);
        let c = rest[k];
        assert(constraints[c] == problem.constraints@[c]@);
        assert(constraints[c][j].0@ == columns(n));
        assert(false);
    }
}

/// Searches for a placement of `n` queens, none attacking another, that
/// keeps the queens of `initial`, which must stand in columns of the board.
/// Returns what the backtracking search finds in the problem of `n` queens.
pub fn solve_queens(n: i8, initial: FnvHashMap<i8, i8>) -> (found: Option<FnvHashMap<i8, i8>>)
    requires
        n >= 0,
        forall|c: i8| #[trigger] initial@.contains_key(c) ==> 0 <= c < n,
    ensures
        exists|problem: CSP<i8, i8, QueensConstraint>|
            {
                &&& #[trigger] is_queens_problem(problem, n as int)
                &&& found.is_some() == problem.solution(initial@).is_some()
                &&& found matches Some(result) ==> problem.solution(initial@) == Some(result@)
            },
        found matches Some(result) ==> placed(result@, n as int, initial@),
        found matches Some(result) ==> ((exists|c: i8| 0 <= c < n && !initial@.contains_key(c))
            ==> no_attack(result@, n as int)),
        found is None ==> forall|r: Map<i8, i8>| #[trigger]
            placed(r, n as int, initial@) ==> !no_attack(r, n as int),
{
    let csp = queens_problem(n);
    proof {
        let all = columns(n as int);
        assert(all.no_duplicates());
        assert forall|c: i8| initial@.dom().contains(c) implies all.to_set().contains(c) by {
            assert(initial@.contains_key(c));
            assert(all[c as int] == c);
        }
    }
    let ghost given = initial@;
    let found = csp.backtracking_search(initial);
    proof {
        if found.is_some() {
            lemma_queens_solution(csp, n as int, given);
        } else {
            assert forall|r: Map<i8, i8>| #[trigger] placed(r, n as int, given) implies !no_attack(
                r,
                n as int,
            ) by {
                lemma_queens_no_solution(csp, n as int, given, r);
            }
        }
    }
    found
}

} // verus!
