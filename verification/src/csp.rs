//! Constraint satisfaction problems: variables with domains of values,
//! constraints over them, and a backtracking solver.

use fnv::FnvHashMap;
use std::hash::Hash;
use vstd::prelude::*;
use vstd::std_specs::hash::obeys_key_model;

verus! {

/// The hasher of the `fnv` crate, `fnv::FnvHasher`: an opaque value.
#[verifier::external_type_specification]
#[verifier::external_body]
pub struct ExFnvHasher(fnv::FnvHasher);

/// The hash builder `std::hash::BuildHasherDefault`, which makes each
/// hasher by `Default`: an opaque value.
#[verifier::external_type_specification]
#[verifier::external_body]
#[verifier::reject_recursive_types(H)]
pub struct ExBuildHasherDefault<H>(std::hash::BuildHasherDefault<H>);

/// Returns the number of keys of the map.
///
/// Calls `len` of `std`'s `HashMap`, here with the hash builder of `fnv`.
/// The contract claims that the result is the number of keys of the map.
#[verifier::external_body]
pub(crate) fn map_len<K, T>(map: &FnvHashMap<K, T>) -> (n: usize)
    requires
        obeys_key_model::<K>(),
    ensures
        n == map@.len(),
{
    map.len()
}

/// Returns whether the map has the key.
///
/// Calls `contains_key` of `std`'s `HashMap`, here with the hash builder of
/// `fnv`. The contract claims that the result tells whether the key is in
/// the map, for keys that are equal and hash as `==` says.
#[verifier::external_body]
pub(crate) fn map_contains_key<K: Eq + Hash, T>(map: &FnvHashMap<K, T>, key: &K) -> (b: bool)
    requires
        obeys_key_model::<K>(),
    ensures
        b == map@.contains_key(*key),
{
    map.contains_key(key)
}

/// Returns the value of the key, if the map has the key.
///
/// Calls `get` of `std`'s `HashMap`, here with the hash builder of `fnv`.
/// The contract claims that the result is the value that the map holds for
/// the key, and `None` where it holds none.
#[verifier::external_body]
pub(crate) fn map_get<'a, K: Eq + Hash, T>(map: &'a FnvHashMap<K, T>, key: &K) -> (value: Option<&'a T>)
    requires
        obeys_key_model::<K>(),
    ensures
        value == if map@.contains_key(*key) {
            Some(&map@[*key])
        } else {
            None
        },
{
    map.get(key)
}

/// Gives the key a value, and returns the value that it had.
///
/// Calls `insert` of `std`'s `HashMap`, here with the hash builder of `fnv`.
/// The contract claims that afterwards the map holds the value for the key
/// and is unchanged for every other key, and that the result is the value
/// that the key had before, if it had one.
#[verifier::external_body]
pub(crate) fn map_insert<K: Eq + Hash, T>(map: &mut FnvHashMap<K, T>, key: K, value: T) -> (before: Option<
    T,
>)
    requires
        obeys_key_model::<K>(),
    ensures
        final(map)@ == old(map)@.insert(key, value),
        before == if old(map)@.contains_key(key) {
            Some(old(map)@[key])
        } else {
            None
        },
{
    map.insert(key, value)
}

/// Takes the key out of the map, and returns the value that it had.
///
/// Calls `remove` of `std`'s `HashMap`, here with the hash builder of `fnv`.
/// The contract claims that afterwards the map is without the key and is
/// unchanged for every other key, and that the result is the value that the
/// key had before, if it had one.
#[verifier::external_body]
pub(crate) fn map_remove<K: Eq + Hash, T>(map: &mut FnvHashMap<K, T>, key: &K) -> (before: Option<T>)
    requires
        obeys_key_model::<K>(),
    ensures
        final(map)@ == old(map)@.remove(*key),
        before == if old(map)@.contains_key(*key) {
            Some(old(map)@[*key])
        } else {
            None
        },
{
    map.remove(key)
}

/// Returns the keys of the map, in the order in which the map is walked.
///
/// Calls `keys` of `std`'s `HashMap`, here with the hash builder of `fnv`,
/// and collects what it yields. The contract claims what holds whatever the
/// order is: each key of the map is listed, once, and nothing else.
#[verifier::external_body]
pub(crate) fn map_keys<K: Eq + Hash + Copy, T>(map: &FnvHashMap<K, T>) -> (keys: Vec<K>)
    requires
        obeys_key_model::<K>(),
    ensures
        keys@.no_duplicates(),
        keys@.to_set() == map@.dom(),
{
    map.keys().copied().collect()
}

/// A constraint over some of the variables of a problem.
pub trait Constraint<V: Eq + Hash, D>: Sized {
    /// Whether the constraint allows the assignment, which may leave some
    /// of its variables without a value.
    spec fn holds(&self, assignment: Map<V, D>) -> bool;

    /// The variables that the constraint is about.
    spec fn vars(&self) -> Seq<V>;

    /// Returns whether the constraint allows the assignment.
    fn satisfied(&self, assignment: &FnvHashMap<V, D>) -> (b: bool)
        requires
            obeys_key_model::<V>(),
        ensures
            b == self.holds(assignment@),
    ;

    /// Returns the variables that the constraint is about.
    fn variables(&self) -> (vs: Vec<V>)
        ensures
            vs@ == self.vars(),
    ;
}

/// A constraint satisfaction problem: variables, the domain of values of
/// each, and for each variable the constraints that are about it.
#[derive(Debug, Clone, Eq, PartialEq)]
pub struct CSP<V, D, C> where
    V: Clone + Copy + Eq + Hash,
    D: Clone + Copy,
    C: Clone + Constraint<V, D>,
 {
    pub variables: Vec<V>,
    pub domains: FnvHashMap<V, Vec<D>>,
    pub constraints: FnvHashMap<V, Vec<C>>,
}

/// Those of the first `n` variables that have no value in `a`, in order.
pub open spec fn unassigned<V, D>(variables: Seq<V>, a: Map<V, D>, n: int) -> Seq<V>
    decreases n,
{
    if n <= 0 {
        Seq::empty()
    } else if a.contains_key(variables[n - 1]) {
        unassigned(variables, a, n - 1)
    } else {
        unassigned(variables, a, n - 1).push(variables[n - 1])
    }
}

/// Whether every one of the constraints allows the assignment.
pub open spec fn consistent_with<V: Eq + Hash, D, C: Constraint<V, D>>(
    constraints: Seq<C>,
    local: Map<V, D>,
) -> bool {
    forall|k: int| 0 <= k < constraints.len() ==> (#[trigger] constraints[k]).holds(local)
}

/// What the backtracking search finds from the assignment `a` when the
/// variables `rest` are still to get values, in this order: `a` itself when
/// none is left, else the first solution found with a value for the first
/// of them.
pub open spec fn search<V: Eq + Hash, D, C: Constraint<V, D>>(
    domains: Map<V, Seq<D>>,
    constraints: Map<V, Seq<C>>,
    a: Map<V, D>,
    rest: Seq<V>,
) -> Option<Map<V, D>>
    decreases rest.len(), 1nat, 0nat,
{
    if rest.len() == 0 {
        Some(a)
    } else {
        try_values(domains, constraints, a, rest, 0)
    }
}

/// What the search finds with one of the values of the first variable of
/// `rest` from the `i`-th on: the values are tried in order, a value that
/// the constraints of the variable do not allow is passed over, and the
/// first solution found behind a value is the result.
pub open spec fn try_values<V: Eq + Hash, D, C: Constraint<V, D>>(
    domains: Map<V, Seq<D>>,
    constraints: Map<V, Seq<C>>,
    a: Map<V, D>,
    rest: Seq<V>,
    i: nat,
) -> Option<Map<V, D>>
    decreases rest.len(), 0nat, domains[rest[0]].len() - i,
{
    if rest.len() == 0 || i >= domains[rest[0]].len() {
        None
    } else {
        let first = rest[0];
        let local = a.insert(first, domains[first][i as int]);
        if consistent_with(constraints[first], local) {
            match search(domains, constraints, local, rest.drop_first()) {
                Some(result) => Some(result),
                None => try_values(domains, constraints, a, rest, i + 1),
            }
        } else {
            try_values(domains, constraints, a, rest, i + 1)
        }
    }
}

/// What `unassigned` lists: the variables without a value among the first
/// `n`, and nothing else.
pub proof fn lemma_unassigned<V, D>(variables: Seq<V>, a: Map<V, D>, n: int)
    requires
        0 <= n <= variables.len(),
    ensures
        unassigned(variables, a, n).len() <= n,
        forall|v: V| #[trigger]
            unassigned(variables, a, n).contains(v) <==> (exists|i: int|
                0 <= i < n && variables[i] == v && !a.contains_key(v)),
    decreases n,
{
    let all = unassigned(variables, a, n);
    if n > 0 {
        lemma_unassigned(variables, a, n - 1);
        let front = unassigned(variables, a, n - 1);
        let last = variables[n - 1];
        assert forall|v: V| #[trigger] all.contains(v) implies (exists|i: int|
            0 <= i < n && variables[i] == v && !a.contains_key(v)) by {
            let k = choose|k: int| 0 <= k < all.len() && all[k] == v;
            if k < front.len() {
                assert(front[k] == v);
                assert(front.contains(v));
                let i = choose|i: int| 0 <= i < n - 1 && variables[i] == v && !a.contains_key(v);
                assert(0 <= i < n && variables[i] == v);
            } else {
                assert(variables[n - 1] == v);
            }
        }
        assert forall|v: V|
            (exists|i: int|
                0 <= i < n && variables[i] == v && !a.contains_key(v)) implies #[trigger] all.contains(
            v,
        ) by {
            let i = choose|i: int| 0 <= i < n && variables[i] == v && !a.contains_key(v);
            if i < n - 1 {
                assert(front.contains(v));
                let k = choose|k: int| 0 <= k < front.len() && front[k] == v;
                assert(all[k] == v);
            } else {
                assert(all[all.len() - 1] == v);
            }
        }
    } else {
        assert forall|v: V| !(#[trigger] all.contains(v)) by {}
    }
}

/// Among distinct variables that hold every key of `a`, as many are
/// without a value as `a` has keys less than there are variables.
pub proof fn lemma_unassigned_count<V, D>(variables: Seq<V>, a: Map<V, D>)
    requires
        variables.no_duplicates(),
        a.dom().subset_of(variables.to_set()),
    ensures
        a.dom().finite(),
        unassigned(variables, a, variables.len() as int).len() + a.len() == variables.len(),
{
    vstd::seq_lib::seq_to_set_is_finite(variables);
    vstd::set_lib::lemma_len_subset(a.dom(), variables.to_set());
    lemma_assigned_count(variables, a, variables.len() as int);
    assert(a.dom().intersect(variables.take(variables.len() as int).to_set()) == a.dom()) by {
        assert(variables.take(variables.len() as int) == variables);
    }
}

/// Among the first `n` of distinct variables, those without a value and
/// the keys of `a` are `n` together.
proof fn lemma_assigned_count<V, D>(variables: Seq<V>, a: Map<V, D>, n: int)
    requires
        variables.no_duplicates(),
        a.dom().finite(),
        0 <= n <= variables.len(),
    ensures
        unassigned(variables, a, n).len() + a.dom().intersect(variables.take(n).to_set()).len()
            == n,
    decreases n,
{
    let upto = variables.take(n);
    let here = a.dom().intersect(upto.to_set());
    if n > 0 {
        lemma_assigned_count(variables, a, n - 1);
        let short = variables.take(n - 1);
        let before = a.dom().intersect(short.to_set());
        let last = variables[n - 1];
        assert(before.finite()) by {
            vstd::set_lib::lemma_len_subset(before, a.dom());
        }
        assert(!short.to_set().contains(last)) by {
            if short.contains(last) {
                let i = choose|i: int| 0 <= i < short.len() && short[i] == last;
                assert(variables[i] == variables[n - 1]);
            }
        }
        assert forall|v: V| upto.to_set().contains(v) <==> (short.to_set().contains(v) || v
            == last) by {
            if upto.contains(v) {
                let i = choose|i: int| 0 <= i < upto.len() && upto[i] == v;
                if i < n - 1 {
                    assert(short[i] == v);
                }
            }
            if short.contains(v) {
                let i = choose|i: int| 0 <= i < short.len() && short[i] == v;
                assert(upto[i] == v);
            }
            if v == last {
                assert(upto[n - 1] == v);
            }
        }
        if a.contains_key(last) {
            assert(here == before.insert(last));
        } else {
            assert(here == before);
        }
    } else {
        assert(here == Set::<V>::empty()) by {
            assert forall|v: V| !here.contains(v) by {
                if upto.contains(v) {
                    let i = choose|i: int| 0 <= i < upto.len() && upto[i] == v;
                }
            }
        }
    }
}

/// The first variable without a value: where it stands among the
/// variables, all before it have a value.
pub proof fn lemma_first_unassigned<V, D>(variables: Seq<V>, a: Map<V, D>, n: int) -> (k: int)
    requires
        0 <= n <= variables.len(),
        unassigned(variables, a, n).len() > 0,
    ensures
        0 <= k < n,
        variables[k] == unassigned(variables, a, n)[0],
        !a.contains_key(variables[k]),
        forall|j: int| 0 <= j < k ==> a.contains_key(#[trigger] variables[j]),
    decreases n,
{
    let front = unassigned(variables, a, n - 1);
    if front.len() > 0 {
        let k = lemma_first_unassigned(variables, a, n - 1);
        if !a.contains_key(variables[n - 1]) {
            assert(unassigned(variables, a, n)[0] == front[0]);
        }
        k
    } else {
        lemma_unassigned(variables, a, n - 1);
        assert forall|j: int| 0 <= j < n - 1 implies a.contains_key(#[trigger] variables[j]) by {
            if !a.contains_key(variables[j]) {
                assert(front.contains(variables[j]));
                let i = choose|i: int| 0 <= i < front.len() && front[i] == variables[j];
            }
        }
        n - 1
    }
}

/// Among distinct variables, giving a value to the first variable without
/// one leaves the others without a value, in the same order.
pub proof fn lemma_unassigned_without<V, D>(
    variables: Seq<V>,
    a: Map<V, D>,
    b: Map<V, D>,
    k: int,
    n: int,
)
    requires
        variables.no_duplicates(),
        0 <= n <= variables.len(),
        0 <= k < variables.len(),
        !a.contains_key(variables[k]),
        forall|j: int| 0 <= j < k ==> a.contains_key(#[trigger] variables[j]),
        b.dom() == a.dom().insert(variables[k]),
    ensures
        n <= k ==> unassigned(variables, a, n).len() == 0 && unassigned(variables, b, n).len()
            == 0,
        n > k ==> unassigned(variables, a, n).len() > 0 && unassigned(variables, a, n)[0]
            == variables[k] && unassigned(variables, b, n) == unassigned(
            variables,
            a,
            n,
        ).drop_first(),
    decreases n,
{
    if n > 0 {
        lemma_unassigned_without(variables, a, b, k, n - 1);
        let next = variables[n - 1];
        let first = variables[k];
        let ua = unassigned(variables, a, n - 1);
        let ub = unassigned(variables, b, n - 1);
        assert(b.contains_key(next) <==> (a.contains_key(next) || next == first));
        if n - 1 == k {
            assert(unassigned(variables, a, n) == seq![first]);
            assert(unassigned(variables, b, n) == seq![first].drop_first());
        } else if n - 1 > k {
            if !a.contains_key(next) {
                assert(ua.push(next).drop_first() == ua.drop_first().push(next));
            }
        }
    }
}

impl<V: Clone + Copy + Eq + Hash, D: Clone + Copy, C: Clone + Constraint<V, D>> CSP<V, D, C> {
    /// The domains of the variables.
    pub open spec fn domain_map(&self) -> Map<V, Seq<D>> {
        Map::new(|v: V| self.domains@.contains_key(v), |v: V| self.domains@[v]@)
    }

    /// The constraints of the variables.
    pub open spec fn constraint_map(&self) -> Map<V, Seq<C>> {
        Map::new(|v: V| self.constraints@.contains_key(v), |v: V| self.constraints@[v]@)
    }

    /// Whether every variable has a domain and a list of constraints, and
    /// the variables can be told apart as keys.
    pub open spec fn wf(&self) -> bool {
        &&& obeys_key_model::<V>()
        &&& forall|i: int|
            0 <= i < self.variables.len() ==> self.domains@.contains_key(
                #[trigger] self.variables@[i],
            ) && self.constraints@.contains_key(self.variables@[i])
    }

    /// Whether the constraints are listed by variable, under variables of
    /// the problem: what `new` sets up, and what `add_constraint` keeps for a
    /// constraint that minds only its variables.
    pub open spec fn listed(&self) -> bool {
        &&& listed_by_variable(self.constraint_map())
        &&& forall|u: V| #[trigger] self.constraints@.contains_key(u) ==> self.variables@.contains(u)
    }

    /// What the backtracking search finds from the assignment `a`.
    pub open spec fn solution(&self, a: Map<V, D>) -> Option<Map<V, D>> {
        search(
            self.domain_map(),
            self.constraint_map(),
            a,
            unassigned(self.variables@, a, self.variables.len() as int),
        )
    }

    /// Makes a problem without constraints. Every variable must have a
    /// domain.
    pub fn new(variables: Vec<V>, domains: FnvHashMap<V, Vec<D>>) -> (csp: CSP<V, D, C>)
        requires
            obeys_key_model::<V>(),
            forall|i: int| 0 <= i < variables.len() ==> domains@.contains_key(#[trigger] variables@[i]),
        ensures
            csp.wf(),
            csp.variables@ == variables@,
            csp.domains@ == domains@,
            forall|v: V| csp.constraints@.contains_key(v) <==> variables@.contains(v),
            forall|v: V|
                csp.constraints@.contains_key(v) ==> (#[trigger] csp.constraints@[v])@ == Seq::<
                    C,
                >::empty(),
            csp.listed(),
    {
        let mut constraints: FnvHashMap<V, Vec<C>> = FnvHashMap::default();
        let mut i: usize = 0;
        while i < variables.len()
            invariant
                obeys_key_model::<V>(),
                i <= variables.len(),
                forall|v: V| constraints@.contains_key(v) <==> variables@.take(i as int).contains(v),
                forall|v: V|
                    constraints@.contains_key(v) ==> (#[trigger] constraints@[v])@ == Seq::<
                        C,
                    >::empty(),
            decreases variables.len() - i,
        {
            let variable = variables[i];
            let ghost before = constraints@;
            map_insert(&mut constraints, variable, Vec::new());
            proof {
                let short = variables@.take(i as int);
                let long = variables@.take(i + 1);
                assert(long == short.push(variable));
                assert forall|v: V| constraints@.contains_key(v) <==> long.contains(v) by {
                    if long.contains(v) {
                        let k = choose|k: int| 0 <= k < long.len() && long[k] == v;
                        if k < i {
                            assert(short[k] == v);
                        }
                    }
                    if short.contains(v) {
                        let k = choose|k: int| 0 <= k < short.len() && short[k] == v;
                        assert(long[k] == v);
                    }
                    if v == variable {
                        assert(long[i as int] == v);
                    }
                }
            }
            i += 1;
        }
        proof {
            assert(variables@.take(i as int) == variables@);
            assert forall|k: int| 0 <= k < variables.len() implies constraints@.contains_key(
                #[trigger] variables@[k],
            ) by {
                assert(variables@.contains(variables@[k]));
            }
        }
        let csp = CSP { variables, domains, constraints };
        proof {
            reveal(listed_by_variable);
        }
        csp
    }

    /// Puts the constraint on each of its variables, which must be
    /// variables of the problem: a clone of it is added to the constraints
    /// of a variable for each time that the variable is named.
    pub fn add_constraint(&mut self, constraint: C)
        requires
            old(self).wf(),
            forall|k: int|
                0 <= k < constraint.vars().len() ==> old(self).variables@.contains(
                    #[trigger] constraint.vars()[k],
                ),
        ensures
            final(self).wf(),
            final(self).variables@ == old(self).variables@,
            final(self).domains@ == old(self).domains@,
            final(self).constraints@.dom() == old(self).constraints@.dom(),
            forall|v: V| #[trigger]
                final(self).constraints@.contains_key(v) ==> added_to(
                    old(self).constraints@[v]@,
                    final(self).constraints@[v]@,
                    constraint,
                    constraint.vars().to_multiset().count(v),
                ),
            old(self).listed() && minds_its_variables(constraint) && clones_keep_rule(constraint)
                ==> final(self).listed(),
    {
        let vars = constraint.variables();
        let ghost start = self.constraints@;
        let mut i: usize = 0;
        proof {
            assert(vars@.take(0).to_multiset() == vstd::multiset::Multiset::<V>::empty()) by {
                vars@.take(0).to_multiset_ensures();
                assert(vars@.take(0).to_multiset().len() == 0);
            }
            assert forall|v: V| #[trigger] self.constraints@.contains_key(v) implies added_to(
                start[v]@,
                self.constraints@[v]@,
                constraint,
                vars@.take(0).to_multiset().count(v),
            ) by {
                assert(self.constraints@[v]@.subrange(0, start[v]@.len() as int) == start[v]@);
            }
        }
        while i < vars.len()
            invariant
                i <= vars.len(),
                vars@ == constraint.vars(),
                self.wf(),
                self.variables@ == old(self).variables@,
                self.domains@ == old(self).domains@,
                self.constraints@.dom() == start.dom(),
                forall|k: int|
                    0 <= k < vars.len() ==> self.variables@.contains(#[trigger] vars@[k]),
                forall|v: V| #[trigger]
                    self.constraints@.contains_key(v) ==> added_to(
                        start[v]@,
                        self.constraints@[v]@,
                        constraint,
                        vars@.take(i as int).to_multiset().count(v),
                    ),
            decreases vars.len() - i,
        {
            let variable = vars[i];
            proof {
                assert(self.variables@.contains(vars@[i as int]));
                let k = choose|k: int|
                    0 <= k < self.variables.len() && self.variables@[k] == variable;
                assert(self.constraints@.contains_key(self.variables@[k]));
            }
            let ghost before = self.constraints@;
            let mut list = map_remove(&mut self.constraints, &variable).unwrap();
            let ghost earlier = list@;
            let copy = constraint.clone();
            list.push(copy);
            map_insert(&mut self.constraints, variable, list);
            proof {
                assert(self.constraints@.dom() == start.dom());
                let short = vars@.take(i as int);
                let long = vars@.take(i + 1);
                assert(long == short.push(variable));
                vstd::seq_lib::to_multiset_build(short, variable);
                assert forall|v: V| #[trigger] self.constraints@.contains_key(v) implies added_to(
                    start[v]@,
                    self.constraints@[v]@,
                    constraint,
                    long.to_multiset().count(v),
                ) by {
                    assert(before.contains_key(v));
                    assert(added_to(
                        start[v]@,
                        before[v]@,
                        constraint,
                        short.to_multiset().count(v),
                    ));
                    if v == variable {
                        assert(self.constraints@[v]@ == earlier.push(copy));
                        assert(self.constraints@[v]@.subrange(0, start[v]@.len() as int)
                            == earlier.subrange(0, start[v]@.len() as int));
                    } else {
                        assert(self.constraints@[v] == before[v]);
                    }
                }
                assert forall|k: int| 0 <= k < self.variables.len() implies self.domains@.contains_key(
                    #[trigger] self.variables@[k],
                ) && self.constraints@.contains_key(self.variables@[k]) by {
                    assert(before.contains_key(self.variables@[k]));
                }
            }
            i += 1;
        }
        proof {
            assert(vars@.take(i as int) == vars@);
            if old(self).listed() && minds_its_variables(constraint) && clones_keep_rule(
                constraint,
            ) {
                assert forall|k: int| 0 <= k < constraint.vars().len() implies self.constraints@.contains_key(
                    #[trigger] constraint.vars()[k],
                ) by {
                    let v = constraint.vars()[k];
                    assert(self.variables@.contains(v));
                    let n = choose|n: int| 0 <= n < self.variables.len() && self.variables@[n] == v;
                    assert(self.constraints@.contains_key(self.variables@[n]));
                }
                assert(self.constraint_map().dom() == old(self).constraint_map().dom());
                lemma_listing_grows(old(self).constraint_map(), self.constraint_map(), constraint);
            }
        }
    }

    /// Returns whether every constraint of the variable allows the
    /// assignment.
    fn consistent(&self, variable: V, assignment: &FnvHashMap<V, D>) -> (b: bool)
        requires
            self.wf(),
            self.constraints@.contains_key(variable),
        ensures
            b == consistent_with(self.constraints@[variable]@, assignment@),
    {
        let constraints = map_get(&self.constraints, &variable).unwrap();
        let mut i: usize = 0;
        while i < constraints.len()
            invariant
                obeys_key_model::<V>(),
                i <= constraints.len(),
                constraints@ == self.constraints@[variable]@,
                forall|k: int| 0 <= k < i ==> (#[trigger] constraints@[k]).holds(assignment@),
            decreases constraints.len() - i,
        {
            if !constraints[i].satisfied(assignment) {
                assert(!self.constraints@[variable]@[i as int].holds(assignment@));
                return false;
            }
            i += 1;
        }
        true
    }

    /// Searches for values for the variables that have none in the
    /// assignment: the variables are taken in order, and for each the values
    /// of its domain are tried in order, backing out of a value as soon as a
    /// constraint of the variable does not allow it. Returns the first
    /// complete assignment found, or `None` where there is none.
    ///
    /// The variables must be distinct, and the assignment must be to
    /// variables of the problem.
    pub fn backtracking_search(&self, assignment: FnvHashMap<V, D>) -> (found: Option<
        FnvHashMap<V, D>,
    >)
        requires
            self.wf(),
            self.variables@.no_duplicates(),
            assignment@.dom().subset_of(self.variables@.to_set()),
        ensures
            found.is_some() == self.solution(assignment@).is_some(),
            found matches Some(result) ==> self.solution(assignment@) == Some(result@),
        decreases unassigned(self.variables@, assignment@, self.variables.len() as int).len(),
    {
        let ghost rest = unassigned(self.variables@, assignment@, self.variables.len() as int);
        proof {
            lemma_unassigned_count(self.variables@, assignment@);
        }
        if map_len(&assignment) == self.variables.len() {
            return Some(assignment);
        }
        let mut unassigned_now: Vec<V> = Vec::new();
        let mut i: usize = 0;
        while i < self.variables.len()
            invariant
                obeys_key_model::<V>(),
                i <= self.variables.len(),
                unassigned_now@ == unassigned(self.variables@, assignment@, i as int),
            decreases self.variables.len() - i,
        {
            let v = self.variables[i];
            if !map_contains_key(&assignment, &v) {
                unassigned_now.push(v);
            }
            i += 1;
        }
        let first = unassigned_now[0];
        let ghost k = lemma_first_unassigned(
            self.variables@,
            assignment@,
            self.variables.len() as int,
        );
        let values = map_get(&self.domains, &first).unwrap();
        let ghost domains = self.domain_map();
        let ghost constraints = self.constraint_map();
        proof {
            assert(domains[first] == values@);
            assert(constraints[first] == self.constraints@[first]@);
        }
        let mut j: usize = 0;
        while j < values.len()
            invariant
                self.wf(),
                self.variables@.no_duplicates(),
                assignment@.dom().subset_of(self.variables@.to_set()),
                rest == unassigned(self.variables@, assignment@, self.variables.len() as int),
                rest.len() > 0,
                first == rest[0],
                0 <= k < self.variables.len(),
                self.variables@[k] == first,
                !assignment@.contains_key(first),
                forall|j: int| 0 <= j < k ==> assignment@.contains_key(#[trigger] self.variables@[j]),
                domains == self.domain_map(),
                constraints == self.constraint_map(),
                domains[first] == values@,
                constraints[first] == self.constraints@[first]@,
                self.constraints@.contains_key(first),
                j <= values.len(),
                try_values(domains, constraints, assignment@, rest, j as nat) == try_values(
                    domains,
                    constraints,
                    assignment@,
                    rest,
                    0,
                ),
            decreases values.len() - j,
        {
            let mut local_assignment = assignment.clone();
            map_insert(&mut local_assignment, first, values[j]);
            proof {
                lemma_unassigned_without(
                    self.variables@,
                    assignment@,
                    local_assignment@,
                    k,
                    self.variables.len() as int,
                );
                assert(self.variables@.to_set().contains(first)) by {
                    assert(self.variables@.contains(self.variables@[k]));
                }
            }
            if self.consistent(first, &local_assignment) {
                if let Some(result) = self.backtracking_search(local_assignment) {
                    return Some(result);
                }
            }
            j += 1;
        }
        None
    }
}

/// Whether `after` is `before` with `count` clones of `constraint` added
/// behind it.
pub open spec fn added_to<C: Clone>(before: Seq<C>, after: Seq<C>, constraint: C, count: nat) -> bool {
    &&& after.len() == before.len() + count
    &&& after.subrange(0, before.len() as int) == before
    &&& forall|k: int| before.len() <= k < after.len() ==> cloned(constraint, #[trigger] after[k])
}

/// A solution that the search finds gives a value to every variable that
/// had none, keeps the values of the others, takes each new value from the
/// domain of its variable, and is allowed by the constraints of the
/// variable that got its value last.
pub proof fn lemma_search_sound<V: Eq + Hash, D, C: Constraint<V, D>>(
    domains: Map<V, Seq<D>>,
    constraints: Map<V, Seq<C>>,
    a: Map<V, D>,
    rest: Seq<V>,
)
    requires
        search(domains, constraints, a, rest) is Some,
    ensures
        ({
            let r = search(domains, constraints, a, rest)->0;
            &&& r.dom() == a.dom().union(rest.to_set())
            &&& forall|v: V| a.contains_key(v) && !rest.contains(v) ==> #[trigger] r[v] == a[v]
            &&& forall|i: int|
                0 <= i < rest.len() ==> domains[#[trigger] rest[i]].contains(r[rest[i]])
            &&& rest.len() > 0 ==> consistent_with(constraints[rest.last()], r)
        }),
    decreases rest.len(), 1nat, 0nat,
{
    if rest.len() == 0 {
        assert(a.dom().union(rest.to_set()) == a.dom());
    } else {
        lemma_try_values_sound(domains, constraints, a, rest, 0);
    }
}

/// What `lemma_search_sound` says, for a search from the `i`-th value of
/// the first variable on.
pub proof fn lemma_try_values_sound<V: Eq + Hash, D, C: Constraint<V, D>>(
    domains: Map<V, Seq<D>>,
    constraints: Map<V, Seq<C>>,
    a: Map<V, D>,
    rest: Seq<V>,
    i: nat,
)
    requires
        try_values(domains, constraints, a, rest, i) is Some,
    ensures
        rest.len() > 0,
        ({
            let r = try_values(domains, constraints, a, rest, i)->0;
            &&& r.dom() == a.dom().union(rest.to_set())
            &&& forall|v: V| a.contains_key(v) && !rest.contains(v) ==> #[trigger] r[v] == a[v]
            &&& forall|k: int|
                0 <= k < rest.len() ==> domains[#[trigger] rest[k]].contains(r[rest[k]])
            &&& consistent_with(constraints[rest.last()], r)
        }),
    decreases rest.len(), 0nat, domains[rest[0]].len() - i,
{
    let first = rest[0];
    let value = domains[first][i as int];
    let local = a.insert(first, value);
    let others = rest.drop_first();
    let r = try_values(domains, constraints, a, rest, i)->0;
    if consistent_with(constraints[first], local) && search(domains, constraints, local, others)
        is Some {
        lemma_search_sound(domains, constraints, local, others);
        assert(r == search(domains, constraints, local, others)->0);
        assert(rest == seq![first] + others);
        assert(r.dom() == a.dom().union(rest.to_set())) by {
            assert forall|v: V| r.dom().contains(v) <==> a.dom().union(rest.to_set()).contains(
                v,
            ) by {
                if others.contains(v) {
                    let k = choose|k: int| 0 <= k < others.len() && others[k] == v;
                    assert(rest[k + 1] == v);
                }
                if rest.contains(v) {
                    let k = choose|k: int| 0 <= k < rest.len() && rest[k] == v;
                    if k > 0 {
                        assert(others[k - 1] == v);
                    }
                }
                assert(rest[0] == first);
            }
        }
        assert forall|v: V| a.contains_key(v) && !rest.contains(v) implies #[trigger] r[v]
            == a[v] by {
            assert(rest[0] == first);
            assert(v != first);
            if others.contains(v) {
                let k = choose|k: int| 0 <= k < others.len() && others[k] == v;
                assert(rest[k + 1] == v);
            }
            assert(local.contains_key(v));
            assert(r[v] == local[v]);
        }
        assert forall|k: int| 0 <= k < rest.len() implies domains[#[trigger] rest[k]].contains(
            r[rest[k]],
        ) by {
            if k > 0 {
                assert(others[k - 1] == rest[k]);
            } else if others.contains(first) {
                let j = choose|j: int| 0 <= j < others.len() && others[j] == first;
                assert(domains[others[j]].contains(r[others[j]]));
            } else {
                assert(r[first] == local[first]);
                assert(domains[first][i as int] == value);
            }
        }
        if others.len() > 0 {
            assert(others.last() == rest.last());
        } else {
            assert(r == local);
        }
    } else {
        lemma_try_values_sound(domains, constraints, a, rest, i + 1);
    }
}

/// The part of the solution `r` that stood when the `i`-th of the variables
/// `rest` had got its value: the values of `a`, and of the variables of
/// `rest` up to that one.
pub open spec fn standing<V, D>(a: Map<V, D>, r: Map<V, D>, rest: Seq<V>, i: int) -> Map<V, D> {
    r.restrict(a.dom().union(rest.take(i + 1).to_set()))
}

/// Each variable that got a value in the search had its constraints allow
/// what stood of the solution at that time.
pub proof fn lemma_search_checks<V: Eq + Hash, D, C: Constraint<V, D>>(
    domains: Map<V, Seq<D>>,
    constraints: Map<V, Seq<C>>,
    a: Map<V, D>,
    rest: Seq<V>,
)
    requires
        search(domains, constraints, a, rest) is Some,
        rest.no_duplicates(),
        forall|k: int| 0 <= k < rest.len() ==> !a.contains_key(#[trigger] rest[k]),
    ensures
        forall|i: int|
            0 <= i < rest.len() ==> consistent_with(
                constraints[#[trigger] rest[i]],
                standing(a, search(domains, constraints, a, rest)->0, rest, i),
            ),
    decreases rest.len(), 1nat, 0nat,
{
    if rest.len() > 0 {
        lemma_try_values_checks(domains, constraints, a, rest, 0);
    }
}

/// What `lemma_search_checks` says, for a search from the `i`-th value of
/// the first variable on.
pub proof fn lemma_try_values_checks<V: Eq + Hash, D, C: Constraint<V, D>>(
    domains: Map<V, Seq<D>>,
    constraints: Map<V, Seq<C>>,
    a: Map<V, D>,
    rest: Seq<V>,
    i: nat,
)
    requires
        try_values(domains, constraints, a, rest, i) is Some,
        rest.no_duplicates(),
        forall|k: int| 0 <= k < rest.len() ==> !a.contains_key(#[trigger] rest[k]),
    ensures
        forall|j: int|
            0 <= j < rest.len() ==> consistent_with(
                constraints[#[trigger] rest[j]],
                standing(a, try_values(domains, constraints, a, rest, i)->0, rest, j),
            ),
    decreases rest.len(), 0nat, domains[rest[0]].len() - i,
{
    let first = rest[0];
    let value = domains[first][i as int];
    let local = a.insert(first, value);
    let others = rest.drop_first();
    let r = try_values(domains, constraints, a, rest, i)->0;
    if consistent_with(constraints[first], local) && search(domains, constraints, local, others)
        is Some {
        assert(r == search(domains, constraints, local, others)->0);
        assert forall|k: int| 0 <= k < others.len() implies !local.contains_key(
            #[trigger] others[k],
        ) by {
            assert(others[k] == rest[k + 1]);
        }
        lemma_search_sound(domains, constraints, local, others);
        lemma_search_checks(domains, constraints, local, others);
        assert forall|j: int| 0 <= j < rest.len() implies consistent_with(
            constraints[#[trigger] rest[j]],
            standing(a, r, rest, j),
        ) by {
            if j == 0 {
                assert(!others.contains(first)) by {
                    if others.contains(first) {
                        let k = choose|k: int| 0 <= k < others.len() && others[k] == first;
                        assert(rest[k + 1] == rest[0]);
                    }
                }
                assert(standing(a, r, rest, 0) == local) by {
                    let one = rest.take(1);
                    assert(one.to_set() == Set::<V>::empty().insert(first)) by {
                        assert forall|v: V|
                            one.to_set().contains(v) <==> Set::<V>::empty().insert(
                                first,
                            ).contains(v) by {
                            if one.contains(v) {
                                let k = choose|k: int| 0 <= k < one.len() && one[k] == v;
                            }
                            if v == first {
                                assert(one[0] == v);
                            }
                        }
                    }
                    assert forall|v: V| local.contains_key(v) implies r.contains_key(v) && r[v]
                        == local[v] by {
                        if others.contains(v) {
                            let k = choose|k: int| 0 <= k < others.len() && others[k] == v;
                            assert(!local.contains_key(others[k]));
                        }
                    }
                    assert(standing(a, r, rest, 0).dom() == local.dom());
                }
            } else {
                assert(rest[j] == others[j - 1]);
                assert(standing(a, r, rest, j) == standing(local, r, others, j - 1)) by {
                    let long = rest.take(j + 1);
                    let short = others.take(j);
                    let left = a.dom().union(long.to_set());
                    let right = local.dom().union(short.to_set());
                    assert forall|v: V| left.contains(v) <==> right.contains(v) by {
                        if long.contains(v) {
                            let k = choose|k: int| 0 <= k < long.len() && long[k] == v;
                            if k > 0 {
                                assert(short[k - 1] == v);
                            }
                        }
                        if short.contains(v) {
                            let k = choose|k: int| 0 <= k < short.len() && short[k] == v;
                            assert(long[k + 1] == v);
                        }
                        if v == first {
                            assert(long[0] == v);
                        }
                    }
                    assert(left == right);
                }
            }
        }
    } else {
        lemma_try_values_checks(domains, constraints, a, rest, i + 1);
    }
}

/// Whether the assignment `r` is a candidate for a solution from `a`: it
/// keeps the values of `a`, and gives each of the variables `rest` a value
/// of its domain.
pub open spec fn candidate<V, D>(
    domains: Map<V, Seq<D>>,
    a: Map<V, D>,
    rest: Seq<V>,
    r: Map<V, D>,
) -> bool {
    &&& r.dom() == a.dom().union(rest.to_set())
    &&& forall|v: V| #[trigger] a.contains_key(v) ==> r[v] == a[v]
    &&& forall|k: int| 0 <= k < rest.len() ==> domains[#[trigger] rest[k]].contains(r[rest[k]])
}

/// Whether the constraints of the variables `rest` that allow `r` allow
/// as well each part of it that stood during a search from `a`.
pub open spec fn allowed_in_part<V: Eq + Hash, D, C: Constraint<V, D>>(
    constraints: Map<V, Seq<C>>,
    a: Map<V, D>,
    rest: Seq<V>,
    r: Map<V, D>,
) -> bool {
    forall|k: int, j: int|
        #![trigger constraints[rest[k]][j]]
        0 <= k < rest.len() && 0 <= j < constraints[rest[k]].len() && constraints[rest[k]][j].holds(
            r,
        ) ==> constraints[rest[k]][j].holds(standing(a, r, rest, k))
}

/// Whether one of the constraints of the variables `rest` does not allow
/// `r`.
pub open spec fn breaks_a_constraint<V: Eq + Hash, D, C: Constraint<V, D>>(
    constraints: Map<V, Seq<C>>,
    rest: Seq<V>,
    r: Map<V, D>,
) -> bool {
    exists|k: int, j: int|
        #![trigger constraints[rest[k]][j]]
        0 <= k < rest.len() && 0 <= j < constraints[rest[k]].len() && !constraints[rest[k]][j].holds(
            r,
        )
}

/// Where the search finds nothing, there is nothing to find: each
/// candidate breaks a constraint of a variable that was to get a value,
/// where its constraints allow the parts of what they allow.
pub proof fn lemma_search_complete<V: Eq + Hash, D, C: Constraint<V, D>>(
    domains: Map<V, Seq<D>>,
    constraints: Map<V, Seq<C>>,
    a: Map<V, D>,
    rest: Seq<V>,
    r: Map<V, D>,
)
    requires
        search(domains, constraints, a, rest) is None,
        rest.no_duplicates(),
        forall|k: int| 0 <= k < rest.len() ==> !a.contains_key(#[trigger] rest[k]),
        candidate(domains, a, rest, r),
        allowed_in_part(constraints, a, rest, r),
    ensures
        breaks_a_constraint(constraints, rest, r),
    decreases rest.len(),
{
    let first = rest[0];
    let others = rest.drop_first();
    let value = r[first];
    assert(domains[rest[0]].contains(r[rest[0]]));
    let i = choose|i: int| 0 <= i < domains[first].len() && domains[first][i] == value;
    lemma_try_values_none(domains, constraints, a, rest, 0, i as nat);
    let local = a.insert(first, value);
    assert(!others.contains(first)) by {
        if others.contains(first) {
            let k = choose|k: int| 0 <= k < others.len() && others[k] == first;
            assert(rest[k + 1] == rest[0]);
        }
    }
    assert(standing(a, r, rest, 0) == local) by {
        let one = rest.take(1);
        assert(one.to_set() == Set::<V>::empty().insert(first)) by {
            assert forall|v: V| one.to_set().contains(v) <==> Set::<V>::empty().insert(
                first,
            ).contains(v) by {
                if one.contains(v) {
                    let k = choose|k: int| 0 <= k < one.len() && one[k] == v;
                }
                if v == first {
                    assert(one[0] == v);
                }
            }
        }
        assert(rest.to_set().contains(first)) by {
            assert(rest[0] == first);
        }
        assert(standing(a, r, rest, 0).dom() == local.dom());
    }
    if !consistent_with(constraints[first], local) {
        let j = choose|j: int|
            0 <= j < constraints[first].len() && !(#[trigger] constraints[first][j]).holds(local);
        assert(!constraints[rest[0]][j].holds(standing(a, r, rest, 0)));
        assert(!constraints[rest[0]][j].holds(r));
    } else {
        assert(search(domains, constraints, local, others) is None);
        assert forall|k: int| 0 <= k < others.len() implies !local.contains_key(
            #[trigger] others[k],
        ) by {
            assert(others[k] == rest[k + 1]);
        }
        assert(candidate(domains, local, others, r)) by {
            assert forall|v: V| r.dom().contains(v) <==> local.dom().union(
                others.to_set(),
            ).contains(v) by {
                if others.contains(v) {
                    let k = choose|k: int| 0 <= k < others.len() && others[k] == v;
                    assert(rest[k + 1] == v);
                }
                if rest.contains(v) {
                    let k = choose|k: int| 0 <= k < rest.len() && rest[k] == v;
                    if k > 0 {
                        assert(others[k - 1] == v);
                    }
                }
                assert(rest[0] == first);
            }
            assert(r.dom() == local.dom().union(others.to_set()));
            assert forall|k: int| 0 <= k < others.len() implies domains[#[trigger] others[k]].contains(
                r[others[k]],
            ) by {
                assert(others[k] == rest[k + 1]);
            }
        }
        assert(allowed_in_part(constraints, local, others, r)) by {
            assert forall|k: int, j: int|
                #![trigger constraints[others[k]][j]]
                0 <= k < others.len() && 0 <= j < constraints[others[k]].len()
                    && constraints[others[k]][j].holds(r) implies constraints[others[k]][j].holds(
                standing(local, r, others, k),
            ) by {
                assert(others[k] == rest[k + 1]);
                assert(constraints[rest[k + 1]][j].holds(standing(a, r, rest, k + 1)));
                lemma_standing_shift(a, r, rest, k + 1);
            }
        }
        lemma_search_complete(domains, constraints, local, others, r);
        let (k, j) = choose|k: int, j: int|
            #![trigger constraints[others[k]][j]]
            0 <= k < others.len() && 0 <= j < constraints[others[k]].len()
                && !constraints[others[k]][j].holds(r);
        assert(others[k] == rest[k + 1]);
        assert(!constraints[rest[k + 1]][j].holds(r));
    }
}

/// What stood when a later variable got its value is the same whether the
/// search is seen from before or from behind the first variable.
proof fn lemma_standing_shift<V, D>(a: Map<V, D>, r: Map<V, D>, rest: Seq<V>, j: int)
    requires
        1 <= j < rest.len(),
    ensures
        standing(a, r, rest, j) == standing(
            a.insert(rest[0], r[rest[0]]),
            r,
            rest.drop_first(),
            j - 1,
        ),
{
    let first = rest[0];
    let others = rest.drop_first();
    let local = a.insert(first, r[first]);
    let long = rest.take(j + 1);
    let short = others.take(j);
    let left = a.dom().union(long.to_set());
    let right = local.dom().union(short.to_set());
    assert forall|v: V| left.contains(v) <==> right.contains(v) by {
        if long.contains(v) {
            let k = choose|k: int| 0 <= k < long.len() && long[k] == v;
            if k > 0 {
                assert(short[k - 1] == v);
            }
        }
        if short.contains(v) {
            let k = choose|k: int| 0 <= k < short.len() && short[k] == v;
            assert(long[k + 1] == v);
        }
        if v == first {
            assert(long[0] == v);
        }
    }
    assert(left == right);
}

/// Where the search finds nothing from the `from`-th value of the first
/// variable on, it finds nothing behind a later value either: the value
/// is not allowed, or the search behind it fails.
proof fn lemma_try_values_none<V: Eq + Hash, D, C: Constraint<V, D>>(
    domains: Map<V, Seq<D>>,
    constraints: Map<V, Seq<C>>,
    a: Map<V, D>,
    rest: Seq<V>,
    from: nat,
    i: nat,
)
    requires
        rest.len() > 0,
        try_values(domains, constraints, a, rest, from) is None,
        from <= i < domains[rest[0]].len(),
    ensures
        !consistent_with(constraints[rest[0]], a.insert(rest[0], domains[rest[0]][i as int]))
            || search(
            domains,
            constraints,
            a.insert(rest[0], domains[rest[0]][i as int]),
            rest.drop_first(),
        ) is None,
    decreases i - from,
{
    if from < i {
        lemma_try_values_none(domains, constraints, a, rest, from + 1, i);
    }
}

/// Among distinct variables, those without a value are distinct.
pub proof fn lemma_unassigned_distinct<V, D>(variables: Seq<V>, a: Map<V, D>, n: int)
    requires
        variables.no_duplicates(),
        0 <= n <= variables.len(),
    ensures
        unassigned(variables, a, n).no_duplicates(),
    decreases n,
{
    if n > 0 {
        lemma_unassigned_distinct(variables, a, n - 1);
        lemma_unassigned(variables, a, n - 1);
        let front = unassigned(variables, a, n - 1);
        let last = variables[n - 1];
        if !a.contains_key(last) {
            assert(!front.contains(last)) by {
                if front.contains(last) {
                    let i = choose|i: int|
                        0 <= i < n - 1 && variables[i] == last && !a.contains_key(last);
                }
            }
            let all = front.push(last);
            assert forall|i: int, j: int| 0 <= i < all.len() && 0 <= j < all.len() && i
                != j implies all[i] != all[j] by {
                if i < front.len() {
                    assert(front.contains(front[i]));
                }
                if j < front.len() {
                    assert(front.contains(front[j]));
                }
            }
        }
    }
}

/// Whether the constraint minds only its variables: once they all have
/// values, values for other variables do not change what it allows.
#[verifier::opaque]
pub open spec fn minds_its_variables<V: Eq + Hash, D, C: Constraint<V, D>>(c: C) -> bool {
    forall|part: Map<V, D>, whole: Map<V, D>|
        #![trigger c.holds(part), c.holds(whole)]
        part.submap_of(whole) && (forall|k: int|
            0 <= k < c.vars().len() ==> part.contains_key(#[trigger] c.vars()[k])) ==> c.holds(part)
            == c.holds(whole)
}

/// Whether two constraints are about the same variables and allow the same
/// assignments.
#[verifier::opaque]
pub open spec fn same_rule<V: Eq + Hash, D, C: Constraint<V, D>>(c1: C, c2: C) -> bool {
    &&& c1.vars() == c2.vars()
    &&& forall|m: Map<V, D>| #[trigger] c1.holds(m) == c2.holds(m)
}

/// Whether the constraints are listed by variable: each stands in the list
/// of each of its variables, and of no other variable, and minds only its
/// variables.
#[verifier::opaque]
pub open spec fn listed_by_variable<V: Eq + Hash, D, C: Constraint<V, D>>(
    constraints: Map<V, Seq<C>>,
) -> bool {
    forall|v: V, j: int|
        #![trigger constraints[v][j]]
        constraints.contains_key(v) && 0 <= j < constraints[v].len() ==> {
            &&& constraints[v][j].vars().contains(v)
            &&& minds_its_variables(constraints[v][j])
            &&& forall|u: V| #[trigger]
                constraints[v][j].vars().contains(u) ==> constraints.contains_key(u) && exists|
                i: int,
            |
                0 <= i < constraints[u].len() && same_rule(
                    #[trigger] constraints[u][i],
                    constraints[v][j],
                )
        }
}

/// A constraint that minds only its variables, and whose variables all had
/// values when it was checked, is kept by the solution.
pub proof fn lemma_search_settles<V: Eq + Hash, D, C: Constraint<V, D>>(
    domains: Map<V, Seq<D>>,
    constraints: Map<V, Seq<C>>,
    a: Map<V, D>,
    rest: Seq<V>,
    k: int,
    j: int,
)
    requires
        search(domains, constraints, a, rest) is Some,
        rest.no_duplicates(),
        forall|i: int| 0 <= i < rest.len() ==> !a.contains_key(#[trigger] rest[i]),
        0 <= k < rest.len(),
        0 <= j < constraints[rest[k]].len(),
        minds_its_variables(constraints[rest[k]][j]),
        forall|i: int|
            0 <= i < constraints[rest[k]][j].vars().len() ==> a.contains_key(
                #[trigger] constraints[rest[k]][j].vars()[i],
            ) || rest.take(k + 1).contains(constraints[rest[k]][j].vars()[i]),
    ensures
        constraints[rest[k]][j].holds(search(domains, constraints, a, rest)->0),
{
    let r = search(domains, constraints, a, rest)->0;
    let c = constraints[rest[k]][j];
    lemma_search_sound(domains, constraints, a, rest);
    lemma_search_checks(domains, constraints, a, rest);
    let part = standing(a, r, rest, k);
    assert(consistent_with(constraints[rest[k]], part));
    assert(c.holds(part));
    let upto = rest.take(k + 1);
    assert forall|v: V| upto.contains(v) implies rest.to_set().contains(v) by {
        let i = choose|i: int| 0 <= i < upto.len() && upto[i] == v;
        assert(rest[i] == v);
    }
    assert(part.submap_of(r));
    assert forall|i: int| 0 <= i < c.vars().len() implies part.contains_key(
        #[trigger] c.vars()[i],
    ) by {
        let v = c.vars()[i];
        if upto.contains(v) {
            assert(upto.to_set().contains(v));
        }
    }
    assert(c.holds(part) == c.holds(r)) by {
        reveal(minds_its_variables);
    }
}

/// The last of the variables `rest`, from the `k`-th on, that is among
/// `vars`.
proof fn lemma_last_variable<V>(rest: Seq<V>, vars: Seq<V>, k: int) -> (last: int)
    requires
        0 <= k < rest.len(),
        vars.contains(rest[k]),
    ensures
        k <= last < rest.len(),
        vars.contains(rest[last]),
        forall|i: int| last < i < rest.len() ==> !vars.contains(#[trigger] rest[i]),
    decreases rest.len() - k,
{
    if exists|i: int| k < i < rest.len() && vars.contains(#[trigger] rest[i]) {
        let i = choose|i: int| k < i < rest.len() && vars.contains(#[trigger] rest[i]);
        lemma_last_variable(rest, vars, i)
    } else {
        k
    }
}

/// A constraint that is listed by variable is about the variable in whose
/// list it stands, and minds only its variables.
pub proof fn lemma_listed_own<V: Eq + Hash, D, C: Constraint<V, D>>(
    constraints: Map<V, Seq<C>>,
    v: V,
    j: int,
)
    requires
        listed_by_variable(constraints),
        constraints.contains_key(v),
        0 <= j < constraints[v].len(),
    ensures
        constraints[v][j].vars().contains(v),
        minds_its_variables(constraints[v][j]),
{
    reveal(listed_by_variable);
}

/// A constraint that is listed by variable has a twin in the list of each
/// of its variables.
pub proof fn lemma_listed_twin<V: Eq + Hash, D, C: Constraint<V, D>>(
    constraints: Map<V, Seq<C>>,
    v: V,
    j: int,
    u: V,
) -> (i: int)
    requires
        listed_by_variable(constraints),
        constraints.contains_key(v),
        0 <= j < constraints[v].len(),
        constraints[v][j].vars().contains(u),
    ensures
        constraints.contains_key(u),
        0 <= i < constraints[u].len(),
        same_rule(constraints[u][i], constraints[v][j]),
{
    reveal(listed_by_variable);
    choose|i: int|
        0 <= i < constraints[u].len() && same_rule(#[trigger] constraints[u][i], constraints[v][j])
}

/// Where the constraints are listed by variable, and are about variables
/// that have or get a value, the solution keeps every constraint of every
/// variable that got its value in the search.
pub proof fn lemma_search_satisfies<V: Eq + Hash, D, C: Constraint<V, D>>(
    domains: Map<V, Seq<D>>,
    constraints: Map<V, Seq<C>>,
    a: Map<V, D>,
    rest: Seq<V>,
    k: int,
    j: int,
)
    requires
        search(domains, constraints, a, rest) is Some,
        rest.no_duplicates(),
        forall|i: int| 0 <= i < rest.len() ==> !a.contains_key(#[trigger] rest[i]),
        forall|i: int| 0 <= i < rest.len() ==> constraints.contains_key(#[trigger] rest[i]),
        listed_by_variable(constraints),
        forall|v: V, i: int, u: V|
            #![trigger constraints[v][i].vars().contains(u)]
            constraints.contains_key(v) && 0 <= i < constraints[v].len()
                && constraints[v][i].vars().contains(u) ==> a.contains_key(u) || rest.contains(u),
        0 <= k < rest.len(),
        0 <= j < constraints[rest[k]].len(),
    ensures
        constraints[rest[k]][j].holds(search(domains, constraints, a, rest)->0),
{
    let r = search(domains, constraints, a, rest)->0;
    let c = constraints[rest[k]][j];
    lemma_listed_own(constraints, rest[k], j);
    let last = lemma_last_variable(rest, c.vars(), k);
    let u = rest[last];
    let i = lemma_listed_twin(constraints, rest[k], j, u);
    let twin = constraints[u][i];
    lemma_listed_own(constraints, u, i);
    let upto = rest.take(last + 1);
    assert(twin.vars() == c.vars() && twin.holds(r) == c.holds(r)) by {
        reveal(same_rule);
    }
    assert forall|n: int| 0 <= n < twin.vars().len() implies a.contains_key(
        #[trigger] twin.vars()[n],
    ) || upto.contains(twin.vars()[n]) by {
        let w = twin.vars()[n];
        assert(c.vars()[n] == w);
        assert(constraints[rest[k]][j].vars().contains(w));
        if !a.contains_key(w) {
            assert(rest.contains(w));
            let m = choose|m: int| 0 <= m < rest.len() && rest[m] == w;
            if m > last {
                assert(!c.vars().contains(rest[m]));
            }
            assert(upto[m] == w);
        }
    }
    lemma_search_settles(domains, constraints, a, rest, last, i);
}

/// Whether every clone of the constraint is about the same variables and
/// allows the same assignments as the constraint.
pub open spec fn clones_keep_rule<V: Eq + Hash, D, C: Clone + Constraint<V, D>>(constraint: C) -> bool {
    forall|copy: C| #[trigger] cloned(constraint, copy) ==> same_rule(copy, constraint)
}

/// Two constraints of the same rule as a third are of the same rule.
pub proof fn lemma_same_rule<V: Eq + Hash, D, C: Constraint<V, D>>(c1: C, c2: C, c3: C)
    requires
        same_rule(c1, c2),
        same_rule(c3, c2),
    ensures
        same_rule(c1, c3),
        same_rule(c2, c2),
        same_rule(c1, c1),
{
    reveal(same_rule);
}

/// A constraint of the same rule as one that minds only its variables
/// minds only its variables.
pub proof fn lemma_minds_same<V: Eq + Hash, D, C: Constraint<V, D>>(c1: C, c2: C)
    requires
        same_rule(c1, c2),
        minds_its_variables(c2),
    ensures
        minds_its_variables(c1),
{
    reveal(same_rule);
    reveal(minds_its_variables);
    assert forall|part: Map<V, D>, whole: Map<V, D>|
        #![trigger c1.holds(part), c1.holds(whole)]
        part.submap_of(whole) && (forall|k: int|
            0 <= k < c1.vars().len() ==> part.contains_key(
                #[trigger] c1.vars()[k],
            )) implies c1.holds(part) == c1.holds(whole) by {
        assert(c1.holds(part) == c2.holds(part));
        assert(c1.holds(whole) == c2.holds(whole));
        assert forall|k: int| 0 <= k < c2.vars().len() implies part.contains_key(
            #[trigger] c2.vars()[k],
        ) by {
            assert(part.contains_key(c1.vars()[k]));
        }
    }
}

/// Putting clones of a constraint behind the lists of its variables, as
/// often as each is named, keeps the constraints listed by variable, where
/// the constraint minds only its variables and its clones keep its rule.
pub proof fn lemma_listing_grows<V: Eq + Hash, D, C: Clone + Constraint<V, D>>(
    before: Map<V, Seq<C>>,
    after: Map<V, Seq<C>>,
    constraint: C,
)
    requires
        listed_by_variable(before),
        before.dom() == after.dom(),
        forall|v: V| #[trigger]
            after.contains_key(v) ==> added_to(
                before[v],
                after[v],
                constraint,
                constraint.vars().to_multiset().count(v),
            ),
        forall|k: int|
            0 <= k < constraint.vars().len() ==> after.contains_key(#[trigger] constraint.vars()[k]),
        minds_its_variables(constraint),
        clones_keep_rule(constraint),
    ensures
        listed_by_variable(after),
{
    assert forall|v: V, j: int|
        #![trigger after[v][j]]
        after.contains_key(v) && 0 <= j < after[v].len() implies {
        &&& after[v][j].vars().contains(v)
        &&& minds_its_variables(after[v][j])
        &&& forall|u: V| #[trigger]
            after[v][j].vars().contains(u) ==> after.contains_key(u) && exists|i: int|
                0 <= i < after[u].len() && same_rule(#[trigger] after[u][i], after[v][j])
    } by {
        let c = after[v][j];
        assert(before.contains_key(v));
        assert(added_to(before[v], after[v], constraint, constraint.vars().to_multiset().count(v)));
        if j < before[v].len() {
            assert(after[v].subrange(0, before[v].len() as int)[j] == after[v][j]);
            assert(c == before[v][j]);
            lemma_listed_own(before, v, j);
            assert forall|u: V| #[trigger] c.vars().contains(u) implies after.contains_key(u)
                && exists|i: int|
                0 <= i < after[u].len() && same_rule(#[trigger] after[u][i], c) by {
                let i = lemma_listed_twin(before, v, j, u);
                assert(after.contains_key(u));
                assert(added_to(
                    before[u],
                    after[u],
                    constraint,
                    constraint.vars().to_multiset().count(u),
                ));
                assert(after[u].subrange(0, before[u].len() as int)[i] == after[u][i]);
                assert(after[u][i] == before[u][i]);
            }
        } else {
            assert(cloned(constraint, c));
            assert(same_rule(c, constraint));
            lemma_minds_same(c, constraint);
            assert(c.vars() == constraint.vars()) by {
                reveal(same_rule);
            }
            assert(constraint.vars().to_multiset().count(v) > 0);
            vstd::seq_lib::to_multiset_contains(constraint.vars(), v);
            assert forall|u: V| #[trigger] c.vars().contains(u) implies after.contains_key(u)
                && exists|i: int|
                0 <= i < after[u].len() && same_rule(#[trigger] after[u][i], c) by {
                let k = choose|k: int| 0 <= k < constraint.vars().len() && constraint.vars()[k] == u;
                assert(after.contains_key(constraint.vars()[k]));
                assert(added_to(
                    before[u],
                    after[u],
                    constraint,
                    constraint.vars().to_multiset().count(u),
                ));
                vstd::seq_lib::to_multiset_contains(constraint.vars(), u);
                let i = after[u].len() - 1;
                assert(cloned(constraint, after[u][i]));
                assert(same_rule(after[u][i], constraint));
                lemma_same_rule(after[u][i], constraint, c);
            }
        }
    }
    reveal(listed_by_variable);
}

impl<V: Clone + Copy + Eq + Hash, D: Clone + Copy, C: Clone + Constraint<V, D>> CSP<V, D, C> {
    /// Where the constraints are listed by variable, a solution keeps every
    /// constraint of every variable that had no value before the search.
    pub proof fn lemma_solution_satisfies(&self, a: Map<V, D>, v: V, j: int)
        requires
            self.wf(),
            self.variables@.no_duplicates(),
            a.dom().subset_of(self.variables@.to_set()),
            self.listed(),
            self.solution(a) is Some,
            self.variables@.contains(v),
            !a.contains_key(v),
            0 <= j < self.constraint_map()[v].len(),
        ensures
            self.constraint_map()[v][j].holds(self.solution(a)->0),
    {
        let vars = self.variables@;
        let rest = unassigned(vars, a, vars.len() as int);
        let constraints = self.constraint_map();
        lemma_unassigned(vars, a, vars.len() as int);
        lemma_unassigned_distinct(vars, a, vars.len() as int);
        assert forall|i: int| 0 <= i < rest.len() implies !a.contains_key(#[trigger] rest[i])
            && constraints.contains_key(rest[i]) by {
            assert(rest.contains(rest[i]));
            let n = choose|n: int| 0 <= n < vars.len() && vars[n] == rest[i] && !a.contains_key(rest[i]);
            assert(self.constraints@.contains_key(vars[n]));
        }
        assert forall|w: V, i: int, u: V|
            #![trigger constraints[w][i].vars().contains(u)]
            constraints.contains_key(w) && 0 <= i < constraints[w].len()
                && constraints[w][i].vars().contains(u) implies a.contains_key(u) || rest.contains(
            u,
        ) by {
            let t = lemma_listed_twin(constraints, w, i, u);
            assert(self.constraints@.contains_key(u));
            assert(vars.contains(u));
            if !a.contains_key(u) {
                let n = choose|n: int| 0 <= n < vars.len() && vars[n] == u;
                assert(rest.contains(u));
            }
        }
        let n = choose|n: int| 0 <= n < vars.len() && vars[n] == v;
        assert(rest.contains(v));
        let k = choose|k: int| 0 <= k < rest.len() && rest[k] == v;
        lemma_search_satisfies(self.domain_map(), constraints, a, rest, k, j);
    }
}

} // verus!
