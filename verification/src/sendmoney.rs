//! The puzzle SEND + MORE = MONEY: a digit for each letter, no digit twice,
//! so that the sum is right, as a constraint satisfaction problem.

use crate::csp::{
    allowed_in_part, candidate, lemma_search_complete, lemma_search_sound, map_get, map_insert,
    map_len, standing, unassigned, Constraint, CSP,
};
use fnv::FnvHashMap;
use itertools::Itertools;
use vstd::prelude::*;
use vstd::std_specs::hash::obeys_key_model;

verus! {

/// The constraint of the puzzle. It holds the letters, each as its byte.
#[derive(Hash, PartialEq, Eq, Debug)]
pub struct SendMoneyConstraint(pub Vec<u8>);

impl Clone for SendMoneyConstraint {
    fn clone(&self) -> (copy: SendMoneyConstraint)
        ensures
            copy.0@ == self.0@,
    {
        let letters = self.0.clone();
        assert(letters@ == self.0@);
        SendMoneyConstraint(letters)
    }
}

/// The letters of the puzzle, as bytes.
pub open spec fn letters() -> Seq<u8> {
    seq![83u8, 69u8, 78u8, 68u8, 77u8, 79u8, 82u8, 89u8]
}

/// The number that four digits spell.
pub open spec fn number4(a: int, b: int, c: int, d: int) -> int {
    a * 1000 + b * 100 + c * 10 + d
}

/// Whether the assignment has a digit for each of the eight letters, and
/// with them SEND + MORE = MONEY.
pub open spec fn adds_up(a: Map<u8, i8>) -> bool {
    &&& forall|k: int| 0 <= k < letters().len() ==> a.contains_key(#[trigger] letters()[k])
    &&& number4(a[83u8] as int, a[69u8] as int, a[78u8] as int, a[68u8] as int) + number4(
        a[77u8] as int,
        a[79u8] as int,
        a[82u8] as int,
        a[69u8] as int,
    ) == a[77u8] * 10000 + number4(a[79u8] as int, a[78u8] as int, a[69u8] as int, a[89u8] as int)
}

/// Returns the number of distinct values in the map.
///
/// Calls `unique` of `itertools::Itertools` on the values of the map, and
/// counts what it yields. `unique` passes each value on the first time that
/// it meets it, and no more: the contract claims that the count is the
/// number of values that the map holds, each counted once.
#[verifier::external_body]
fn distinct_values(map: &FnvHashMap<u8, i8>) -> (n: usize)
    ensures
        n == map@.values().len(),
{
    map.values().unique().count()
}

impl Constraint<u8, i8> for SendMoneyConstraint {
    /// A digit must not stand for two letters. An assignment to as many
    /// letters as the constraint holds must give each of the eight letters a
    /// digit and make the sum right.
    open spec fn holds(&self, assignment: Map<u8, i8>) -> bool {
        &&& assignment.values().len() >= assignment.len()
        &&& assignment.len() == self.0.len() ==> adds_up(assignment)
    }

    open spec fn vars(&self) -> Seq<u8> {
        self.0@
    }

    fn satisfied(&self, assignment: &FnvHashMap<u8, i8>) -> bool {
        // if there are duplicate values then it's not a solution
        if distinct_values(assignment) < map_len(assignment) {
            return false;
        }
        // if all variables have been assigned, check if it adds correctly
        if map_len(assignment) == self.0.len() {
            let s = map_get(assignment, &83);
            let e = map_get(assignment, &69);
            let n = map_get(assignment, &78);
            let d = map_get(assignment, &68);
            let m = map_get(assignment, &77);
            let o = map_get(assignment, &79);
            let r = map_get(assignment, &82);
            let y = map_get(assignment, &89);
            proof {
                assert(letters()[0] == 83u8 && letters()[1] == 69u8 && letters()[2] == 78u8
                    && letters()[3] == 68u8 && letters()[4] == 77u8 && letters()[5] == 79u8
                    && letters()[6] == 82u8 && letters()[7] == 89u8);
            }
            if s.is_none() || e.is_none() || n.is_none() || d.is_none() || m.is_none()
                || o.is_none() || r.is_none() || y.is_none() {
                return false;
            }
            let s: i32 = *s.unwrap() as i32;
            let e: i32 = *e.unwrap() as i32;
            let n: i32 = *n.unwrap() as i32;
            let d: i32 = *d.unwrap() as i32;
            let m: i32 = *m.unwrap() as i32;
            let o: i32 = *o.unwrap() as i32;
            let r: i32 = *r.unwrap() as i32;
            let y: i32 = *y.unwrap() as i32;
            let send: i32 = s * 1000 + e * 100 + n * 10 + d;
            let more: i32 = m * 1000 + o * 100 + r * 10 + e;
            let money: i32 = m * 10000 + o * 1000 + n * 100 + e * 10 + y;
            return send + more == money;
        }
        true  // no conflict
    }

    fn variables(&self) -> Vec<u8> {
        let letters = self.0.clone();
        assert(letters@ == self.0@);
        letters
    }
}

/// The digits, in the order in which they are tried.
pub open spec fn digits() -> Seq<i8> {
    Seq::new(10, |i: int| i as i8)
}

/// The assignment that the search starts from: M is 1.
pub open spec fn first_guess() -> Map<u8, i8> {
    Map::<u8, i8>::empty().insert(77u8, 1i8)
}

/// Whether `csp` is the problem of the puzzle: its variables are the
/// letters, each can be any digit, and each has the constraint of the
/// puzzle.
pub open spec fn is_send_money_problem(csp: CSP<u8, i8, SendMoneyConstraint>) -> bool {
    &&& csp.wf()
    &&& csp.variables@ == letters()
    &&& forall|v: u8| #[trigger] csp.domains@.contains_key(v) <==> letters().contains(v)
    &&& forall|v: u8| letters().contains(v) ==> (#[trigger] csp.domains@[v])@ == digits()
    &&& forall|v: u8| #[trigger] csp.constraints@.contains_key(v) <==> letters().contains(v)
    &&& forall|v: u8|
        letters().contains(v) ==> (#[trigger] csp.constraints@[v])@.len() == 1
            && csp.constraints@[v]@[0].0@ == letters()
}

/// Whether the assignment solves the puzzle: each letter has a digit, M has
/// 1, no digit stands for two letters, and the sum is right.
pub open spec fn solves_puzzle(r: Map<u8, i8>) -> bool {
    &&& r.dom() == letters().to_set()
    &&& r[77u8] == 1
    &&& forall|v: u8| letters().contains(v) && v != 77 ==> 0 <= #[trigger] r[v] <= 9
    &&& r.values().len() >= 8
    &&& adds_up(r)
}

/// Returns the letters of the puzzle.
fn puzzle_letters() -> (vars: Vec<u8>)
    ensures
        vars@ == letters(),
{
    let mut vars: Vec<u8> = Vec::new();
    vars.push(83);
    vars.push(69);
    vars.push(78);
    vars.push(68);
    vars.push(77);
    vars.push(79);
    vars.push(82);
    vars.push(89);
    assert(vars@ == letters());
    vars
}

/// Returns the digits.
fn all_digits() -> (values: Vec<i8>)
    ensures
        values@ == digits(),
{
    let mut values: Vec<i8> = Vec::new();
    let mut d: i8 = 0;
    while d < 10
        invariant
            0 <= d <= 10,
            values@ == Seq::new(d as nat, |i: int| i as i8),
        decreases 10 - d,
    {
        values.push(d);
        d += 1;
        assert(values@ == Seq::new(d as nat, |i: int| i as i8));
    }
    values
}

/// Returns the domains of the letters: all the digits for each.
fn letter_domains(vars: &Vec<u8>) -> (domains: FnvHashMap<u8, Vec<i8>>)
    ensures
        forall|v: u8| #[trigger] domains@.contains_key(v) <==> vars@.contains(v),
        forall|v: u8| domains@.contains_key(v) ==> (#[trigger] domains@[v])@ == digits(),
{
    broadcast use vstd::std_specs::hash::group_hash_axioms;

    let mut domains: FnvHashMap<u8, Vec<i8>> = FnvHashMap::default();
    let mut i: usize = 0;
    while i < vars.len()
        invariant
            obeys_key_model::<u8>(),
            i <= vars.len(),
            forall|v: u8| #[trigger] domains@.contains_key(v) <==> vars@.take(i as int).contains(v),
            forall|v: u8| domains@.contains_key(v) ==> (#[trigger] domains@[v])@ == digits(),
        decreases vars.len() - i,
    {
        let values = all_digits();
        map_insert(&mut domains, vars[i], values);
        proof {
            let short = vars@.take(i as int);
            let long = vars@.take(i + 1);
            assert(long == short.push(vars@[i as int]));
            assert forall|v: u8| #[trigger] domains@.contains_key(v) <==> long.contains(v) by {
                if long.contains(v) {
                    let k = choose|k: int| 0 <= k < long.len() && long[k] == v;
                    if k < i {
                        assert(short[k] == v);
                    }
                }
                if short.contains(v) {
                    let k = choose|k: int| 0 <= k < short.len() && short[k] == v;
                    assert(long[k] == v);
                }
                if v == vars@[i as int] {
                    assert(long[i as int] == v);
                }
            }
        }
        i += 1;
    }
    proof {
        assert(vars@.take(i as int) == vars@);
    }
    domains
}

/// Each letter stands once among the letters.
proof fn lemma_letters_once(v: u8)
    requires
        letters().contains(v),
    ensures
        letters().to_multiset().count(v) == 1,
{
    assert(letters().no_duplicates());
    letters().lemma_multiset_has_no_duplicates();
    vstd::seq_lib::to_multiset_contains(letters(), v);
}

/// Makes the problem of the puzzle.
pub fn send_money_problem() -> (csp: CSP<u8, i8, SendMoneyConstraint>)
    ensures
        is_send_money_problem(csp),
{
    broadcast use vstd::std_specs::hash::group_hash_axioms;

    let vars = puzzle_letters();
    let domains = letter_domains(&vars);
    proof {
        assert forall|k: int| 0 <= k < vars.len() implies domains@.contains_key(
            #[trigger] vars@[k],
        ) by {
            assert(vars@.contains(vars@[k]));
        }
    }
    let copy = vars.clone();
    assert(copy@ == vars@);
    let mut csp: CSP<u8, i8, SendMoneyConstraint> = CSP::new(copy, domains);
    let constraint = SendMoneyConstraint(vars);
    let ghost before = csp.constraints@;
    proof {
        assert forall|k: int| 0 <= k < constraint.vars().len() implies csp.variables@.contains(
            #[trigger] constraint.vars()[k],
        ) by {
            assert(csp.variables@[k] == constraint.vars()[k]);
        }
    }
    csp.add_constraint(constraint);
    proof {
        assert forall|v: u8| #[trigger] csp.constraints@.contains_key(v) <==> letters().contains(
            v,
        ) by {
            assert(csp.constraints@.contains_key(v) <==> before.dom().contains(v));
            assert(before.contains_key(v) <==> letters().contains(v));
        }
        assert forall|v: u8| letters().contains(v) implies (#[trigger] csp.constraints@[v])@.len()
            == 1 && csp.constraints@[v]@[0].0@ == letters() by {
            lemma_letters_once(v);
            assert(csp.constraints@.contains_key(v));
            assert(before[v]@.len() == 0);
            assert(cloned(constraint, csp.constraints@[v]@[0]));
        }
    }
    csp
}

/// A solution of the problem of the puzzle solves the puzzle.
pub proof fn lemma_send_money_solution(problem: CSP<u8, i8, SendMoneyConstraint>)
    requires
        is_send_money_problem(problem),
        problem.solution(first_guess()) is Some,
    ensures
        solves_puzzle(problem.solution(first_guess())->0),
{
    let a = first_guess();
    let rest = unassigned(letters(), a, 8);
    let r = problem.solution(a)->0;
    assert(rest == seq![83u8, 69u8, 78u8, 68u8, 79u8, 82u8, 89u8]) by {
        reveal_with_fuel(unassigned, 9);
    }
    lemma_search_sound(problem.domain_map(), problem.constraint_map(), a, rest);
    assert(r.dom() == letters().to_set()) by {
        assert forall|v: u8| r.dom().contains(v) <==> letters().to_set().contains(v) by {
            if rest.contains(v) {
                let i = choose|i: int| 0 <= i < rest.len() && rest[i] == v;
                assert(letters()[if i < 4 {
                    i
                } else {
                    i + 1
                }] == v);
            }
            if letters().contains(v) {
                let i = choose|i: int| 0 <= i < letters().len() && letters()[i] == v;
                if i < 4 {
                    assert(rest[i] == v);
                } else if i > 4 {
                    assert(rest[i - 1] == v);
                } else {
                    assert(a.dom().contains(v));
                }
            }
        }
    }
    assert(r[77u8] == 1) by {
        assert(a.contains_key(77u8));
        if rest.contains(77u8) {
            let i = choose|i: int| 0 <= i < rest.len() && rest[i] == 77u8;
        }
    }
    assert forall|v: u8| letters().contains(v) && v != 77 implies 0 <= #[trigger] r[v] <= 9 by {
        let i = choose|i: int| 0 <= i < letters().len() && letters()[i] == v;
        let k = if i < 4 {
            i
        } else {
            i - 1
        };
        assert(rest[k] == v);
        assert(problem.domain_map()[rest[k]].contains(r[rest[k]]));
        assert(problem.domains@.contains_key(v));
        assert(problem.domain_map()[v] == digits());
        let j = choose|j: int| 0 <= j < digits().len() && digits()[j] == r[v];
    }
    assert(letters().no_duplicates());
    letters().unique_seq_to_set();
    assert(r.len() == 8);
    assert(rest.last() == 89u8);
    assert(letters()[7] == 89u8);
    assert(letters().contains(89u8));
    assert(problem.constraints@.contains_key(89u8));
    let stored = problem.constraint_map()[89u8];
    assert(stored == problem.constraints@[89u8]@);
    assert(stored[0].holds(r));
}

/// The letters in the order in which they have their digits in the search:
/// M from the start, then the others.
pub open spec fn letters_in_turn() -> Seq<u8> {
    seq![77u8, 83u8, 69u8, 78u8, 68u8, 79u8, 82u8, 89u8]
}

/// The digits that solve the puzzle, for the letters in turn: 9567 + 1085 =
/// 10652.
pub open spec fn digits_in_turn() -> Seq<i8> {
    seq![1i8, 9i8, 5i8, 6i8, 7i8, 0i8, 8i8, 2i8]
}

/// The digits that solve the puzzle, for the first `i` letters in turn.
pub open spec fn known(i: int) -> Map<u8, i8>
    decreases i,
{
    if i <= 0 {
        Map::empty()
    } else {
        known(i - 1).insert(letters_in_turn()[i - 1], digits_in_turn()[i - 1])
    }
}

/// The first `i` letters in turn have the digits that solve the puzzle, as
/// many digits as letters.
proof fn lemma_known(i: int)
    requires
        0 <= i <= 8,
    ensures
        known(i).dom().finite(),
        known(i).len() == i,
        known(i).values().finite(),
        known(i).values().len() == i,
        forall|v: u8|
            #[trigger] known(i).contains_key(v) <==> exists|k: int|
                0 <= k < i && letters_in_turn()[k] == v,
        forall|k: int| 0 <= k < i ==> known(i)[#[trigger] letters_in_turn()[k]] == digits_in_turn()[k],
        forall|d: i8|
            #[trigger] known(i).values().contains(d) <==> exists|k: int|
                0 <= k < i && digits_in_turn()[k] == d,
    decreases i,
{
    if i > 0 {
        lemma_known(i - 1);
        let before = known(i - 1);
        let key = letters_in_turn()[i - 1];
        let digit = digits_in_turn()[i - 1];
        let now = known(i);
        assert(letters_in_turn().no_duplicates());
        assert(digits_in_turn().no_duplicates());
        assert(!before.contains_key(key)) by {
            if before.contains_key(key) {
                let k = choose|k: int| 0 <= k < i - 1 && letters_in_turn()[k] == key;
            }
        }
        assert(!before.values().contains(digit)) by {
            if before.values().contains(digit) {
                let k = choose|k: int| 0 <= k < i - 1 && digits_in_turn()[k] == digit;
            }
        }
        assert(now.values() == before.values().insert(digit)) by {
            assert forall|d: i8| now.values().contains(d) <==> before.values().insert(
                digit,
            ).contains(d) by {
                if now.values().contains(d) {
                    let v = choose|v: u8| now.contains_key(v) && now[v] == d;
                    if v != key {
                        assert(before.contains_key(v) && before[v] == d);
                    }
                }
                if before.values().contains(d) {
                    let v = choose|v: u8| before.contains_key(v) && before[v] == d;
                    assert(now.contains_key(v) && now[v] == d);
                }
                if d == digit {
                    assert(now.contains_key(key) && now[key] == d);
                }
            }
        }
        assert forall|v: u8| #[trigger] now.contains_key(v) <==> exists|k: int|
            0 <= k < i && letters_in_turn()[k] == v by {
            if before.contains_key(v) {
                let k = choose|k: int| 0 <= k < i - 1 && letters_in_turn()[k] == v;
                assert(0 <= k < i && letters_in_turn()[k] == v);
            }
            if exists|k: int| 0 <= k < i && letters_in_turn()[k] == v {
                let k = choose|k: int| 0 <= k < i && letters_in_turn()[k] == v;
                if k < i - 1 {
                    assert(before.contains_key(v));
                }
            }
        }
        assert forall|d: i8| #[trigger] now.values().contains(d) <==> exists|k: int|
            0 <= k < i && digits_in_turn()[k] == d by {
            if before.values().contains(d) {
                let k = choose|k: int| 0 <= k < i - 1 && digits_in_turn()[k] == d;
                assert(0 <= k < i && digits_in_turn()[k] == d);
            }
            if exists|k: int| 0 <= k < i && digits_in_turn()[k] == d {
                let k = choose|k: int| 0 <= k < i && digits_in_turn()[k] == d;
                if k < i - 1 {
                    assert(before.values().contains(d));
                }
            }
        }
        assert forall|k: int| 0 <= k < i implies now[#[trigger] letters_in_turn()[k]]
            == digits_in_turn()[k] by {
            if k < i - 1 {
                assert(before.contains_key(letters_in_turn()[k]));
            }
        }
    } else {
        assert(known(0).values() == Set::<i8>::empty()) by {
            assert forall|d: i8| !known(0).values().contains(d) by {}
        }
    }
}

/// The puzzle has a solution, and so the search finds one.
pub proof fn lemma_puzzle_has_solution(problem: CSP<u8, i8, SendMoneyConstraint>)
    requires
        is_send_money_problem(problem),
    ensures
        problem.solution(first_guess()) is Some,
{
    let a = first_guess();
    let rest = unassigned(letters(), a, 8);
    let r = known(8);
    let domains = problem.domain_map();
    let constraints = problem.constraint_map();
    assert(rest == seq![83u8, 69u8, 78u8, 68u8, 79u8, 82u8, 89u8]) by {
        reveal_with_fuel(unassigned, 9);
    }
    lemma_known(8);
    assert forall|k: int| 0 <= k < 7 implies #[trigger] rest[k] == letters_in_turn()[k + 1] by {}
    if problem.solution(a) is None {
        assert(candidate(domains, a, rest, r)) by {
            assert forall|v: u8| r.dom().contains(v) <==> a.dom().union(rest.to_set()).contains(
                v,
            ) by {
                if rest.contains(v) {
                    let k = choose|k: int| 0 <= k < rest.len() && rest[k] == v;
                    assert(letters_in_turn()[k + 1] == v);
                }
                if r.contains_key(v) {
                    let k = choose|k: int| 0 <= k < 8 && letters_in_turn()[k] == v;
                    if k > 0 {
                        assert(rest[k - 1] == v);
                    }
                }
                assert(letters_in_turn()[0] == 77u8);
            }
            assert(r.dom() == a.dom().union(rest.to_set()));
            assert(r[letters_in_turn()[0]] == digits_in_turn()[0]);
            assert forall|k: int| 0 <= k < rest.len() implies domains[#[trigger] rest[k]].contains(
                r[rest[k]],
            ) by {
                assert(r[letters_in_turn()[k + 1]] == digits_in_turn()[k + 1]);
                let d = digits_in_turn()[k + 1];
                assert(0 <= d <= 9);
                assert(letters().contains(rest[k])) by {
                    assert(letters()[if k < 4 {
                        k
                    } else {
                        k + 1
                    }] == rest[k]);
                }
                assert(problem.domains@.contains_key(rest[k]));
                assert(domains[rest[k]] == digits());
                assert(digits()[d as int] == d);
            }
        }
        assert forall|k: int| 0 <= k < rest.len() implies #[trigger] standing(a, r, rest, k)
            == known(k + 2) by {
            lemma_known(k + 2);
            let part = standing(a, r, rest, k);
            let upto = rest.take(k + 1);
            assert forall|v: u8| part.contains_key(v) <==> known(k + 2).contains_key(v) by {
                if upto.contains(v) {
                    let i = choose|i: int| 0 <= i < upto.len() && upto[i] == v;
                    assert(letters_in_turn()[i + 1] == v);
                }
                if known(k + 2).contains_key(v) {
                    let i = choose|i: int| 0 <= i < k + 2 && letters_in_turn()[i] == v;
                    if i > 0 {
                        assert(upto[i - 1] == v);
                        assert(upto.to_set().contains(v));
                    } else {
                        assert(a.dom().contains(v));
                    }
                    assert(r.contains_key(v));
                }
            }
            assert(part.dom() == known(k + 2).dom());
            assert forall|v: u8| part.contains_key(v) implies part[v] == known(k + 2)[v] by {
                let i = choose|i: int| 0 <= i < k + 2 && letters_in_turn()[i] == v;
                assert(known(k + 2)[letters_in_turn()[i]] == digits_in_turn()[i]);
                assert(r[letters_in_turn()[i]] == digits_in_turn()[i]);
            }
            assert(part == known(k + 2));
        }
        assert(adds_up(r)) by {
            assert forall|k: int| 0 <= k < letters().len() implies r.contains_key(
                #[trigger] letters()[k],
            ) by {
                assert(letters_in_turn()[if k < 4 {
                    k + 1
                } else if k == 4 {
                    0
                } else {
                    k
                }] == letters()[k]);
            }
            assert(r[letters_in_turn()[0]] == 1);
            assert(r[letters_in_turn()[1]] == 9);
            assert(r[letters_in_turn()[2]] == 5);
            assert(r[letters_in_turn()[3]] == 6);
            assert(r[letters_in_turn()[4]] == 7);
            assert(r[letters_in_turn()[5]] == 0);
            assert(r[letters_in_turn()[6]] == 8);
            assert(r[letters_in_turn()[7]] == 2);
        }
        assert forall|k: int, j: int|
            #![trigger constraints[rest[k]][j]]
            0 <= k < rest.len() && 0 <= j < constraints[rest[k]].len() implies constraints[rest[k]][j].holds(
            r,
        ) && constraints[rest[k]][j].holds(standing(a, r, rest, k)) by {
            let v = rest[k];
            assert(letters().contains(v)) by {
                assert(letters()[if k < 4 {
                    k
                } else {
                    k + 1
                }] == v);
            }
            assert(problem.constraints@.contains_key(v));
            assert(constraints[v] == problem.constraints@[v]@);
            assert(constraints[v][j].0@ == letters());
            lemma_known(k + 2);
            assert(standing(a, r, rest, k) == known(k + 2));
            if k + 2 == 8 {
                assert(known(k + 2) == r);
            }
        }
        assert(allowed_in_part(constraints, a, rest, r));
        lemma_search_complete(domains, constraints, a, rest, r);
        assert(false);
    }
}

/// Searches for the digits of the puzzle, with 1 for M. Returns what the
/// backtracking search finds in the problem of the puzzle: digits for the
/// letters that solve it.
pub fn solve_send_money() -> (found: Option<FnvHashMap<u8, i8>>)
    ensures
        found is Some,
        exists|problem: CSP<u8, i8, SendMoneyConstraint>|
            {
                &&& #[trigger] is_send_money_problem(problem)
                &&& found.is_some() == problem.solution(first_guess()).is_some()
                &&& found matches Some(result) ==> problem.solution(first_guess()) == Some(
                    result@,
                )
            },
        found matches Some(result) ==> solves_puzzle(result@),
{
    broadcast use vstd::std_specs::hash::group_hash_axioms;

    let csp = send_money_problem();
    let mut initial_guess: FnvHashMap<u8, i8> = FnvHashMap::default();
    map_insert(&mut initial_guess, 77, 1);
    proof {
        assert(initial_guess@ == first_guess());
        assert(letters().no_duplicates());
        assert forall|v: u8| initial_guess@.dom().contains(v) implies letters().to_set().contains(
            v,
        ) by {
            assert(letters()[4] == 77u8);
        }
    }
    let found = csp.backtracking_search(initial_guess);
    proof {
        lemma_puzzle_has_solution(csp);
        lemma_send_money_solution(csp);
    }
    found
}

} // verus!
