//! Colouring the map of Australia with three colours, no two neighbours
//! alike, as a constraint satisfaction problem.

use crate::csp::{
    allowed_in_part, candidate, clones_keep_rule, consistent_with, lemma_search_checks,
    lemma_search_complete, lemma_search_sound, map_contains_key, map_get, map_insert,
    minds_its_variables, same_rule, standing, unassigned, CSP, Constraint,
};
use fnv::FnvHashMap;
use vstd::prelude::*;
use vstd::std_specs::hash::obeys_key_model;

verus! {

/// The states and territories: the variables of the problem.
#[derive(Clone, Copy, Debug, Eq, Hash, PartialEq, Structural)]
pub enum Place {
    WA,
    NT,
    SA,
    Q,
    NSW,
    V,
    T,
}

/// The colours: the values of the problem.
#[derive(Clone, Copy, Debug, Eq, Hash, PartialEq, Structural)]
pub enum Color {
    Red,
    Green,
    Blue,
}

impl Place {
    /// The number by which the problem knows the place.
    pub open spec fn number(self) -> u8 {
        match self {
            Place::WA => 0,
            Place::NT => 1,
            Place::SA => 2,
            Place::Q => 3,
            Place::NSW => 4,
            Place::V => 5,
            Place::T => 6,
        }
    }

    /// Returns the number by which the problem knows the place.
    pub fn index(self) -> (i: u8)
        ensures
            i == self.number(),
            i < 7,
    {
        match self {
            Place::WA => 0,
            Place::NT => 1,
            Place::SA => 2,
            Place::Q => 3,
            Place::NSW => 4,
            Place::V => 5,
            Place::T => 6,
        }
    }
}

/// Constraint: Proximity, touching can't have same color
#[derive(Clone, Copy, Debug, Eq, Hash, PartialEq, Structural)]
pub struct MapColorConstraint(pub Place, pub Place);

impl Constraint<u8, Color> for MapColorConstraint {
    open spec fn holds(&self, assignment: Map<u8, Color>) -> bool {
        assignment.contains_key(self.0.number()) && assignment.contains_key(self.1.number())
            ==> assignment[self.0.number()] != assignment[self.1.number()]
    }

    open spec fn vars(&self) -> Seq<u8> {
        seq![self.0.number(), self.1.number()]
    }

    fn satisfied(&self, assignment: &FnvHashMap<u8, Color>) -> bool {
        let first = self.0.index();
        let second = self.1.index();
        if !map_contains_key(assignment, &first) || !map_contains_key(assignment, &second) {
            return true;
        }
        return *map_get(assignment, &first).unwrap() != *map_get(assignment, &second).unwrap();
    }

    fn variables(&self) -> Vec<u8> {
        let mut places: Vec<u8> = Vec::new();
        places.push(self.0.index());
        places.push(self.1.index());
        assert(places@ == seq![self.0.number(), self.1.number()]);
        places
    }
}

/// The pairs of neighbours on the map, in the order in which their
/// constraints are put on the problem.
pub open spec fn borders() -> Seq<(Place, Place)> {
    seq![
        (Place::WA, Place::NT),
        (Place::WA, Place::SA),
        (Place::SA, Place::NT),
        (Place::Q, Place::NT),
        (Place::Q, Place::SA),
        (Place::Q, Place::NSW),
        (Place::NSW, Place::SA),
        (Place::V, Place::SA),
        (Place::V, Place::NSW),
        (Place::V, Place::T),
    ]
}

/// The numbers of the places.
pub open spec fn places() -> Seq<u8> {
    Seq::new(7, |i: int| i as u8)
}

/// The colours in the order in which they are tried.
pub open spec fn palette() -> Seq<Color> {
    seq![Color::Red, Color::Blue, Color::Green]
}

/// The constraints among the first `n` borders that are about the place
/// numbered `v`, in order, one for each time that the border names it.
pub open spec fn touching(n: int, v: u8) -> Seq<MapColorConstraint>
    decreases n,
{
    if n <= 0 {
        Seq::empty()
    } else {
        let border = borders()[n - 1];
        let constraint = MapColorConstraint(border.0, border.1);
        let before = touching(n - 1, v);
        let once = if border.0.number() == v {
            before.push(constraint)
        } else {
            before
        };
        if border.1.number() == v {
            once.push(constraint)
        } else {
            once
        }
    }
}

/// Whether `csp` is the problem of colouring the map with the constraints
/// of the first `n` borders: its variables are the places, each can have any
/// colour of the palette, and each has the constraints of its borders.
pub open spec fn is_map_problem(csp: CSP<u8, Color, MapColorConstraint>, n: int) -> bool {
    &&& csp.wf()
    &&& csp.variables@ == places()
    &&& forall|v: u8| #[trigger] csp.domains@.contains_key(v) <==> v < 7
    &&& forall|v: u8| v < 7 ==> (#[trigger] csp.domains@[v])@ == palette()
    &&& forall|v: u8| #[trigger] csp.constraints@.contains_key(v) <==> v < 7
    &&& forall|v: u8| v < 7 ==> (#[trigger] csp.constraints@[v])@ == touching(n, v)
}

/// How often a number stands in a pair.
proof fn lemma_count_in_pair(x: u8, y: u8, v: u8)
    ensures
        seq![x, y].to_multiset().count(v) == if x == v {
            1nat
        } else {
            0nat
        } + if y == v {
            1nat
        } else {
            0nat
        },
{
    broadcast use vstd::multiset::group_multiset_axioms;

    let none = Seq::<u8>::empty();
    let one = none.push(x);
    assert(seq![x, y] == one.push(y));
    vstd::seq_lib::to_multiset_build(none, x);
    vstd::seq_lib::to_multiset_build(one, y);
    vstd::seq_lib::to_multiset_len(none);
    assert(none.to_multiset().count(v) == 0) by {
        vstd::seq_lib::to_multiset_contains(none, v);
    }
}

/// A key of a part of a map is a key of the map, with the same value.
proof fn lemma_submap_value(part: Map<u8, Color>, whole: Map<u8, Color>, key: u8)
    requires
        part.submap_of(whole),
        part.contains_key(key),
    ensures
        whole.contains_key(key),
        whole[key] == part[key],
{
    if !whole.dom().contains(key) {
        assert(part.dom().contains(key));
    }
}

/// The constraint of a border minds only its two places, and a copy of it
/// is the same constraint.
pub proof fn lemma_border_rule(constraint: MapColorConstraint)
    ensures
        minds_its_variables(constraint),
        clones_keep_rule(constraint),
{
    reveal(minds_its_variables);
    reveal(same_rule);
    assert forall|part: Map<u8, Color>, whole: Map<u8, Color>|
        #![trigger constraint.holds(part), constraint.holds(whole)]
        part.submap_of(whole) && (forall|k: int|
            0 <= k < constraint.vars().len() ==> part.contains_key(
                #[trigger] constraint.vars()[k],
            )) implies constraint.holds(part) == constraint.holds(whole) by {
        assert(constraint.vars()[0] == constraint.0.number());
        assert(constraint.vars()[1] == constraint.1.number());
        assert(part.contains_key(constraint.vars()[0]));
        assert(part.contains_key(constraint.vars()[1]));
        let first = constraint.0.number();
        let second = constraint.1.number();
        lemma_submap_value(part, whole, first);
        lemma_submap_value(part, whole, second);
    }
}

/// Puts the constraint of the `n`-th border on the problem.
fn add_border(
    csp: &mut CSP<u8, Color, MapColorConstraint>,
    first: Place,
    second: Place,
    Ghost(n): Ghost<int>,
)
    requires
        0 <= n < borders().len(),
        borders()[n] == (first, second),
        is_map_problem(*old(csp), n),
        old(csp).listed(),
    ensures
        is_map_problem(*final(csp), n + 1),
        final(csp).listed(),
{
    let constraint = MapColorConstraint(first, second);
    let ghost before = csp.constraints@;
    proof {
        lemma_border_rule(constraint);
        assert forall|k: int| 0 <= k < constraint.vars().len() implies csp.variables@.contains(
            #[trigger] constraint.vars()[k],
        ) by {
            let v = constraint.vars()[k];
            assert(v < 7);
            assert(places()[v as int] == v);
        }
    }
    csp.add_constraint(constraint);
    proof {
        assert forall|v: u8| #[trigger] csp.constraints@.contains_key(v) <==> v < 7 by {
            assert(csp.constraints@.contains_key(v) <==> before.dom().contains(v));
        }
        assert forall|v: u8| v < 7 implies (#[trigger] csp.constraints@[v])@ == touching(
            n + 1,
            v,
        ) by {
            lemma_count_in_pair(first.number(), second.number(), v);
            assert(csp.constraints@.contains_key(v));
            let old_list = before[v]@;
            let new_list = csp.constraints@[v]@;
            assert(old_list == touching(n, v));
            assert(new_list.subrange(0, old_list.len() as int) == old_list);
            assert forall|k: int| old_list.len() <= k < new_list.len() implies new_list[k]
                == constraint by {
                assert(cloned(constraint, new_list[k]));
            }
            assert(new_list == touching(n + 1, v));
        }
    }
}

/// Makes the problem of colouring the map of Australia.
pub fn australia() -> (csp: CSP<u8, Color, MapColorConstraint>)
    ensures
        is_map_problem(csp, borders().len() as int),
        csp.listed(),
{
    broadcast use vstd::std_specs::hash::group_hash_axioms;

    let mut variables: Vec<u8> = Vec::new();
    variables.push(Place::WA.index());
    variables.push(Place::NT.index());
    variables.push(Place::SA.index());
    variables.push(Place::Q.index());
    variables.push(Place::NSW.index());
    variables.push(Place::V.index());
    variables.push(Place::T.index());
    assert(variables@ == places());
    let mut domains: FnvHashMap<u8, Vec<Color>> = FnvHashMap::default();
    let mut i: usize = 0;
    while i < variables.len()
        invariant
            obeys_key_model::<u8>(),
            i <= variables.len(),
            variables@ == places(),
            forall|v: u8| #[trigger] domains@.contains_key(v) <==> v < i,
            forall|v: u8| v < i ==> (#[trigger] domains@[v])@ == palette(),
        decreases variables.len() - i,
    {
        let mut colors: Vec<Color> = Vec::new();
        colors.push(Color::Red);
        colors.push(Color::Blue);
        colors.push(Color::Green);
        assert(colors@ == palette());
        map_insert(&mut domains, variables[i], colors);
        i += 1;
    }
    let mut csp: CSP<u8, Color, MapColorConstraint> = CSP::new(variables, domains);
    proof {
        assert forall|v: u8| #[trigger] csp.constraints@.contains_key(v) <==> v < 7 by {
            if places().contains(v) {
                let k = choose|k: int| 0 <= k < places().len() && places()[k] == v;
            }
            if v < 7 {
                assert(places()[v as int] == v);
            }
        }
        assert(is_map_problem(csp, 0));
    }
    add_border(&mut csp, Place::WA, Place::NT, Ghost(0));
    add_border(&mut csp, Place::WA, Place::SA, Ghost(1));
    add_border(&mut csp, Place::SA, Place::NT, Ghost(2));
    add_border(&mut csp, Place::Q, Place::NT, Ghost(3));
    add_border(&mut csp, Place::Q, Place::SA, Ghost(4));
    add_border(&mut csp, Place::Q, Place::NSW, Ghost(5));
    add_border(&mut csp, Place::NSW, Place::SA, Ghost(6));
    add_border(&mut csp, Place::V, Place::SA, Ghost(7));
    add_border(&mut csp, Place::V, Place::NSW, Ghost(8));
    add_border(&mut csp, Place::V, Place::T, Ghost(9));
    csp
}

/// The assignment that the search starts from: Western Australia is blue.
pub open spec fn first_guess() -> Map<u8, Color> {
    Map::<u8, Color>::empty().insert(Place::WA.number(), Color::Blue)
}

/// Whether the assignment gives every place a colour, Western Australia
/// blue, and no two neighbours the same colour.
pub open spec fn well_coloured(r: Map<u8, Color>) -> bool {
    &&& forall|v: u8| v < 7 ==> #[trigger] r.contains_key(v)
    &&& r[Place::WA.number()] == Color::Blue
    &&& forall|k: int|
        0 <= k < borders().len() ==> r[(#[trigger] borders()[k]).0.number()]
            != r[borders()[k].1.number()]
}

/// The constraint of a border is among the constraints of both its places.
proof fn lemma_touching_contains(n: int, v: u8, k: int)
    requires
        0 <= k < n <= borders().len(),
        borders()[k].0.number() == v || borders()[k].1.number() == v,
    ensures
        touching(n, v).contains(MapColorConstraint(borders()[k].0, borders()[k].1)),
    decreases n,
{
    let constraint = MapColorConstraint(borders()[k].0, borders()[k].1);
    let all = touching(n, v);
    if k < n - 1 {
        lemma_touching_contains(n - 1, v, k);
        let before = touching(n - 1, v);
        let i = choose|i: int| 0 <= i < before.len() && before[i] == constraint;
        assert(all[i] == constraint);
    } else {
        assert(all[all.len() - 1] == constraint);
    }
}

/// In a solution of the problem the two places of a border differ in
/// colour.
proof fn lemma_border_respected(problem: CSP<u8, Color, MapColorConstraint>, k: int)
    requires
        is_map_problem(problem, borders().len() as int),
        problem.solution(first_guess()) is Some,
        0 <= k < borders().len(),
    ensures
        (problem.solution(first_guess())->0)[borders()[k].0.number()] != (problem.solution(
            first_guess(),
        )->0)[borders()[k].1.number()],
{
    let a = first_guess();
    let rest = unassigned(places(), a, 7);
    let r = problem.solution(a)->0;
    assert(rest == seq![1u8, 2u8, 3u8, 4u8, 5u8, 6u8]) by {
        reveal_with_fuel(unassigned, 8);
    }
    lemma_search_sound(problem.domain_map(), problem.constraint_map(), a, rest);
    lemma_search_checks(problem.domain_map(), problem.constraint_map(), a, rest);
    let p = borders()[k].0.number();
    let q = borders()[k].1.number();
    assert(p != q && p < 7 && q < 7);
    let later = if p < q {
        q
    } else {
        p
    };
    let sooner = if p < q {
        p
    } else {
        q
    };
    let j = later - 1;
    assert(rest[j] == later);
    let stood = standing(a, r, rest, j);
    assert(consistent_with(problem.constraint_map()[rest[j]], stood));
    let constraint = MapColorConstraint(borders()[k].0, borders()[k].1);
    lemma_touching_contains(borders().len() as int, later, k);
    assert(problem.constraints@.contains_key(later));
    let stored = problem.constraint_map()[later];
    assert(stored == touching(borders().len() as int, later));
    let i = choose|i: int| 0 <= i < stored.len() && stored[i] == constraint;
    assert(stored[i].holds(stood));
    let upto = rest.take(j + 1);
    assert(upto[j] == later);
    assert(upto.to_set().contains(later));
    if sooner > 0 {
        assert(upto[sooner - 1] == sooner);
        assert(upto.to_set().contains(sooner));
    } else {
        assert(a.dom().contains(sooner));
    }
    assert(rest.to_set().contains(later)) by {
        assert(rest[j] == later);
    }
    assert(r.dom().contains(later));
    assert(r.dom().contains(sooner)) by {
        if sooner > 0 {
            assert(rest[sooner - 1] == sooner);
            assert(rest.to_set().contains(sooner));
        }
    }
    assert(stood.contains_key(p) && stood.contains_key(q));
    assert(stood[p] == r[p] && stood[q] == r[q]);
}

/// A solution of the problem gives every place a colour, Western Australia
/// blue, and no two neighbours the same colour.
pub proof fn lemma_map_solution(problem: CSP<u8, Color, MapColorConstraint>)
    requires
        is_map_problem(problem, borders().len() as int),
        problem.solution(first_guess()) is Some,
    ensures
        well_coloured(problem.solution(first_guess())->0),
{
    let a = first_guess();
    let rest = unassigned(places(), a, 7);
    let r = problem.solution(a)->0;
    assert(rest == seq![1u8, 2u8, 3u8, 4u8, 5u8, 6u8]) by {
        reveal_with_fuel(unassigned, 8);
    }
    lemma_search_sound(problem.domain_map(), problem.constraint_map(), a, rest);
    assert forall|v: u8| v < 7 implies #[trigger] r.contains_key(v) by {
        if v > 0 {
            assert(rest[v - 1] == v);
            assert(rest.to_set().contains(v));
        } else {
            assert(a.dom().contains(v));
        }
    }
    assert(r[0u8] == Color::Blue) by {
        assert(a.contains_key(0u8));
        if rest.contains(0u8) {
            let i = choose|i: int| 0 <= i < rest.len() && rest[i] == 0u8;
        }
    }
    assert forall|k: int| 0 <= k < borders().len() implies r[(#[trigger] borders()[k]).0.number()]
        != r[borders()[k].1.number()] by {
        lemma_border_respected(problem, k);
    }
}

/// Each constraint of a place is the constraint of a border.
proof fn lemma_touching_are_borders(n: int, v: u8, j: int)
    requires
        0 <= n <= borders().len(),
        0 <= j < touching(n, v).len(),
    ensures
        exists|k: int|
            0 <= k < n && touching(n, v)[j] == MapColorConstraint(
                (#[trigger] borders()[k]).0,
                borders()[k].1,
            ),
    decreases n,
{
    if n > 0 {
        let before = touching(n - 1, v);
        let border = borders()[n - 1];
        if j < before.len() {
            lemma_touching_are_borders(n - 1, v, j);
            let k = choose|k: int|
                0 <= k < n - 1 && before[j] == MapColorConstraint(
                    (#[trigger] borders()[k]).0,
                    borders()[k].1,
                );
            assert(touching(n, v)[j] == before[j]);
            assert(0 <= k < n);
        } else {
            assert(touching(n, v)[j] == MapColorConstraint(border.0, border.1));
            assert(borders()[n - 1] == border);
        }
    }
}

/// A colouring of the map: one that the search could find.
pub open spec fn a_colouring() -> Map<u8, Color> {
    Map::<u8, Color>::empty().insert(0u8, Color::Blue).insert(1u8, Color::Red).insert(
        2u8,
        Color::Green,
    ).insert(3u8, Color::Blue).insert(4u8, Color::Red).insert(5u8, Color::Blue).insert(
        6u8,
        Color::Red,
    )
}

/// The map can be coloured, and so the search finds a colouring.
pub proof fn lemma_map_has_solution(problem: CSP<u8, Color, MapColorConstraint>)
    requires
        is_map_problem(problem, borders().len() as int),
    ensures
        problem.solution(first_guess()) is Some,
{
    let a = first_guess();
    let rest = unassigned(places(), a, 7);
    let r = a_colouring();
    let domains = problem.domain_map();
    let constraints = problem.constraint_map();
    assert(rest == seq![1u8, 2u8, 3u8, 4u8, 5u8, 6u8]) by {
        reveal_with_fuel(unassigned, 8);
    }
    if problem.solution(a) is None {
        assert(candidate(domains, a, rest, r)) by {
            assert forall|v: u8| r.dom().contains(v) <==> a.dom().union(rest.to_set()).contains(
                v,
            ) by {
                if rest.contains(v) {
                    let k = choose|k: int| 0 <= k < rest.len() && rest[k] == v;
                }
                if 1 <= v < 7 {
                    assert(rest[v - 1] == v);
                }
            }
            assert(r.dom() == a.dom().union(rest.to_set()));
            assert forall|k: int| 0 <= k < rest.len() implies domains[#[trigger] rest[k]].contains(
                r[rest[k]],
            ) by {
                assert(domains[rest[k]] == palette());
                assert(palette()[0] == Color::Red);
                assert(palette()[1] == Color::Blue);
                assert(palette()[2] == Color::Green);
            }
        }
        assert(allowed_in_part(constraints, a, rest, r)) by {
            assert forall|k: int, j: int|
                #![trigger constraints[rest[k]][j]]
                0 <= k < rest.len() && 0 <= j < constraints[rest[k]].len()
                    && constraints[rest[k]][j].holds(r) implies constraints[rest[k]][j].holds(
                standing(a, r, rest, k),
            ) by {}
        }
        lemma_search_complete(domains, constraints, a, rest, r);
        let (k, j) = choose|k: int, j: int|
            #![trigger constraints[rest[k]][j]]
            0 <= k < rest.len() && 0 <= j < constraints[rest[k]].len()
                && !constraints[rest[k]][j].holds(r);
        let v = rest[k];
        assert(constraints[v] == touching(borders().len() as int, v));
        lemma_touching_are_borders(borders().len() as int, v, j);
        let b = choose|b: int|
            0 <= b < borders().len() && touching(borders().len() as int, v)[j]
                == MapColorConstraint((#[trigger] borders()[b]).0, borders()[b].1);
        assert(r[borders()[b].0.number()] != r[borders()[b].1.number()]);
        assert(false);
    }
}

/// Searches for a colouring of the map of Australia in which Western
/// Australia is blue. Returns what the backtracking search finds in the
/// problem of the map: a colouring in which no two neighbours are alike.
pub fn color_australia() -> (found: Option<FnvHashMap<u8, Color>>)
    ensures
        found is Some,
        exists|problem: CSP<u8, Color, MapColorConstraint>|
            {
                &&& #[trigger] is_map_problem(problem, borders().len() as int)
                &&& found.is_some() == problem.solution(first_guess()).is_some()
                &&& found matches Some(result) ==> problem.solution(first_guess()) == Some(
                    result@,
                )
            },
        found matches Some(result) ==> well_coloured(result@),
{
    broadcast use vstd::std_specs::hash::group_hash_axioms;

    let csp = australia();
    let mut initial_guess: FnvHashMap<u8, Color> = FnvHashMap::default();
    map_insert(&mut initial_guess, Place::WA.index(), Color::Blue);
    proof {
        assert(initial_guess@ == first_guess());
        assert(places().no_duplicates());
        assert forall|v: u8| initial_guess@.dom().contains(v) implies places().to_set().contains(
            v,
        ) by {
            assert(places()[0] == 0u8);
        }
    }
    let found = csp.backtracking_search(initial_guess);
    proof {
        lemma_map_has_solution(csp);
        lemma_map_solution(csp);
    }
    found
}

} // verus!
