//! The missionaries and cannibals problem: three of each must cross a river
//! from the west bank to the east bank in a boat for two, and on neither
//! bank may the missionaries present be outnumbered.

use crate::node::{share, Node};
use std::collections::{HashSet, VecDeque};
use std::rc::Rc;
use vstd::prelude::*;
use vstd::set_lib::{lemma_int_range, lemma_len_subset, set_int_range};

verus! {

/// The number of missionaries, and of cannibals.
pub const MAX_NUM: i32 = 3;

/// A state of the problem: the missionaries and cannibals on the west bank
/// and on the east bank, and whether the boat is on the west bank.
#[derive(Clone, Copy, Debug, Eq, PartialEq, Hash, Structural)]
pub struct MCState {
    pub wm: i32,
    pub wc: i32,
    pub em: i32,
    pub ec: i32,
    pub boat: bool,
}

/// Whether `missionaries` are safe with `cannibals` on one bank: there are
/// none of them, or they are not outnumbered.
pub open spec fn safe(missionaries: int, cannibals: int) -> bool {
    !(missionaries < cannibals && missionaries > 0)
}

/// The loads that the boat can carry, as pairs of missionaries and
/// cannibals, in the order in which the crossings are tried.
pub open spec fn loads() -> Seq<(int, int)> {
    seq![(2, 0), (1, 0), (0, 2), (0, 1), (1, 1)]
}

/// The states among `states` in which nobody is outnumbered, in the same
/// order.
pub open spec fn legal_only(states: Seq<MCState>) -> Seq<MCState>
    decreases states.len(),
{
    if states.len() == 0 {
        Seq::empty()
    } else if states.last().legal() {
        legal_only(states.drop_last()).push(states.last())
    } else {
        legal_only(states.drop_last())
    }
}

/// What `legal_only` keeps of a sequence with one more state.
pub proof fn lemma_legal_only_push(states: Seq<MCState>, state: MCState)
    ensures
        legal_only(states.push(state)) == if state.legal() {
            legal_only(states).push(state)
        } else {
            legal_only(states)
        },
{
    assert(states.push(state).drop_last() == states);
}

/// `legal_only` keeps exactly the states in which nobody is outnumbered.
pub proof fn lemma_legal_only(states: Seq<MCState>)
    ensures
        forall|t: MCState| #[trigger]
            legal_only(states).contains(t) <==> (states.contains(t) && t.legal()),
    decreases states.len(),
{
    let kept = legal_only(states);
    if states.len() > 0 {
        let front = states.drop_last();
        let last = states.last();
        lemma_legal_only(front);
        assert(states == front.push(last));
        assert forall|t: MCState| #[trigger] kept.contains(t) <==> (states.contains(t)
            && t.legal()) by {
            if kept.contains(t) {
                let k = choose|k: int| 0 <= k < kept.len() && kept[k] == t;
                if last.legal() && k == kept.len() - 1 {
                    assert(states[states.len() - 1] == t);
                } else {
                    assert(legal_only(front)[k] == t);
                    assert(legal_only(front).contains(t));
                    let j = choose|j: int| 0 <= j < front.len() && front[j] == t;
                    assert(states[j] == t);
                }
            }
            if states.contains(t) && t.legal() {
                let j = choose|j: int| 0 <= j < states.len() && states[j] == t;
                if j < front.len() {
                    assert(front[j] == t);
                    assert(legal_only(front).contains(t));
                    let k = choose|k: int| 0 <= k < legal_only(front).len() && legal_only(
                        front,
                    )[k] == t;
                    assert(kept[k] == t);
                } else {
                    assert(kept[kept.len() - 1] == t);
                }
            }
        }
    }
}

impl MCState {
    /// Whether everyone is on one bank or the other.
    pub open spec fn wf(&self) -> bool {
        &&& self.em == MAX_NUM - self.wm
        &&& self.ec == MAX_NUM - self.wc
    }

    /// Whether no missionary is outnumbered on either bank.
    pub open spec fn legal(&self) -> bool {
        safe(self.wm as int, self.wc as int) && safe(self.em as int, self.ec as int)
    }

    /// Whether everyone has safely reached the east bank.
    pub open spec fn done(&self) -> bool {
        self.legal() && self.em == MAX_NUM && self.ec == MAX_NUM
    }

    /// Whether the bank where the boat lies has the people for `load`.
    pub open spec fn can_carry(&self, load: (int, int)) -> bool {
        if self.boat {
            (load.0 > 0 ==> self.wm >= load.0) && (load.1 > 0 ==> self.wc >= load.1)
        } else {
            (load.0 > 0 ==> self.em >= load.0) && (load.1 > 0 ==> self.ec >= load.1)
        }
    }

    /// The state after the boat has carried `load` across.
    pub open spec fn crossed(&self, load: (int, int)) -> MCState {
        if self.boat {
            MCState {
                wm: (self.wm - load.0) as i32,
                wc: (self.wc - load.1) as i32,
                em: (MAX_NUM - (self.wm - load.0)) as i32,
                ec: (MAX_NUM - (self.wc - load.1)) as i32,
                boat: false,
            }
        } else {
            MCState {
                wm: (self.wm + load.0) as i32,
                wc: (self.wc + load.1) as i32,
                em: (MAX_NUM - (self.wm + load.0)) as i32,
                ec: (MAX_NUM - (self.wc + load.1)) as i32,
                boat: true,
            }
        }
    }

    /// `found`, and behind it the state after `load` has crossed, where the
    /// bank of the boat has the people for it.
    pub open spec fn with_candidate(&self, found: Seq<MCState>, load: (int, int)) -> Seq<MCState> {
        if self.can_carry(load) {
            found.push(self.crossed(load))
        } else {
            found
        }
    }

    /// The states after each load that the bank of the boat has the people
    /// for, in the order of `loads`.
    pub open spec fn candidates(&self) -> Seq<MCState> {
        self.with_candidate(
            self.with_candidate(
                self.with_candidate(
                    self.with_candidate(self.with_candidate(Seq::empty(), (2, 0)), (1, 0)),
                    (0, 2),
                ),
                (0, 1),
            ),
            (1, 1),
        )
    }

    /// The states that one crossing leads to: the candidates in which
    /// nobody is outnumbered, in the same order.
    pub open spec fn next_states(&self) -> Seq<MCState> {
        legal_only(self.candidates())
    }

    /// Whether `next` is reached from this state by one crossing that the
    /// bank of the boat can supply and that leaves nobody outnumbered.
    pub open spec fn leads_to(&self, next: MCState) -> bool {
        exists|k: int|
            0 <= k < loads().len() && self.can_carry(#[trigger] loads()[k]) && next
                == self.crossed(loads()[k]) && next.legal()
    }

    /// Makes the state with `wm` missionaries and `wc` cannibals on the west
    /// bank, the others on the east bank, and the boat on the west bank if
    /// `boat`.
    pub fn new(wm: i32, wc: i32, boat: bool) -> (state: MCState)
        requires
            MAX_NUM - wm <= i32::MAX,
            MAX_NUM - wc <= i32::MAX,
        ensures
            state == (MCState { wm, wc, em: (MAX_NUM - wm) as i32, ec: (MAX_NUM - wc) as i32, boat }),
            state.wf(),
    {
        MCState { wm, wc, em: MAX_NUM - wm, ec: MAX_NUM - wc, boat }
    }

    /// Returns whether no missionary is outnumbered on either bank.
    pub fn is_legal(&self) -> (b: bool)
        ensures
            b == self.legal(),
    {
        if self.wm < self.wc && self.wm > 0 {
            return false;
        }
        if self.em < self.ec && self.em > 0 {
            return false;
        }
        return true;
    }

    /// Returns whether everyone has safely reached the east bank.
    pub fn goal(&self) -> (b: bool)
        ensures
            b == self.done(),
    {
        self.is_legal() && self.em == MAX_NUM && self.ec == MAX_NUM
    }
}

impl MCState {
    /// Returns the states that one crossing leads to.
    pub fn successors(&self) -> (sucs: Vec<MCState>)
        requires
            self.wf(),
        ensures
            sucs@ == self.next_states(),
            forall|k: int| 0 <= k < sucs.len() ==> (#[trigger] sucs@[k]).wf(),
    {
        let mut sucs: Vec<MCState> = Vec::new();
        if self.boat {
            if self.wm > 1 {
                sucs.push(MCState::new(self.wm - 2, self.wc, !self.boat));
            }
            if self.wm > 0 {
                sucs.push(MCState::new(self.wm - 1, self.wc, !self.boat));
            }
            if self.wc > 1 {
                sucs.push(MCState::new(self.wm, self.wc - 2, !self.boat));
            }
            if self.wc > 0 {
                sucs.push(MCState::new(self.wm, self.wc - 1, !self.boat));
            }
            if self.wm > 0 && self.wc > 0 {
                sucs.push(MCState::new(self.wm - 1, self.wc - 1, !self.boat));
            }
        } else {
            if self.em > 1 {
                sucs.push(MCState::new(self.wm + 2, self.wc, !self.boat));
            }
            if self.em > 0 {
                sucs.push(MCState::new(self.wm + 1, self.wc, !self.boat));
            }
            if self.ec > 1 {
                sucs.push(MCState::new(self.wm, self.wc + 2, !self.boat));
            }
            if self.ec > 0 {
                sucs.push(MCState::new(self.wm, self.wc + 1, !self.boat));
            }
            if self.em > 0 && self.ec > 0 {
                sucs.push(MCState::new(self.wm + 1, self.wc + 1, !self.boat));
            }
        }
        assert(sucs@ == self.candidates());
        let mut sucs_filtered: Vec<MCState> = Vec::new();
        let mut i: usize = 0;
        while i < sucs.len()
            invariant
                i <= sucs.len(),
                sucs_filtered@ == legal_only(sucs@.take(i as int)),
                forall|k: int| 0 <= k < sucs.len() ==> (#[trigger] sucs@[k]).wf(),
                forall|k: int| 0 <= k < sucs_filtered.len() ==> (#[trigger] sucs_filtered@[k]).wf(),
            decreases sucs.len() - i,
        {
            let x = sucs[i];
            proof {
                assert(sucs@.take(i + 1) == sucs@.take(i as int).push(x));
                lemma_legal_only_push(sucs@.take(i as int), x);
            }
            if x.is_legal() {
                sucs_filtered.push(x);
            }
            i += 1;
        }
        assert(sucs@.take(i as int) == sucs@);
        sucs_filtered
    }
}

/// Whether `path` is a way from `start` by crossings that the boat can make
/// and that leave nobody outnumbered.
pub open spec fn route_from(path: Seq<MCState>, start: MCState) -> bool {
    &&& path.len() >= 1
    &&& path[0] == start
    &&& forall|i: int| 0 <= i < path.len() - 1 ==> (#[trigger] path[i]).leads_to(path[i + 1])
}

/// Whether everyone can reach the east bank safely from `start`.
pub open spec fn solvable(start: MCState) -> bool {
    exists|path: Seq<MCState>| #[trigger] route_from(path, start) && path.last().done()
}

impl MCState {
    /// Whether the state is one of the problem: everyone is on one bank or
    /// the other, and no count is negative.
    pub open spec fn valid(&self) -> bool {
        &&& self.wf()
        &&& 0 <= self.wm <= MAX_NUM
        &&& 0 <= self.wc <= MAX_NUM
    }

    /// A number that tells the valid states apart.
    pub open spec fn code(&self) -> int {
        self.wm * 8 + self.wc * 2 + if self.boat {
            1int
        } else {
            0int
        }
    }

    /// What `with_candidate` holds.
    proof fn lemma_with_candidate(&self, found: Seq<MCState>, load: (int, int))
        ensures
            forall|t: MCState| #[trigger]
                self.with_candidate(found, load).contains(t) <==> (found.contains(t) || (
                self.can_carry(load) && t == self.crossed(load))),
    {
        let all = self.with_candidate(found, load);
        assert forall|t: MCState| #[trigger] all.contains(t) implies (found.contains(t) || (
        self.can_carry(load) && t == self.crossed(load))) by {
            let k = choose|k: int| 0 <= k < all.len() && all[k] == t;
            if k < found.len() {
                assert(found[k] == t);
            }
        }
        assert forall|t: MCState|
            (found.contains(t) || (self.can_carry(load) && t == self.crossed(
                load,
            ))) implies #[trigger] all.contains(t) by {
            if found.contains(t) {
                let k = choose|k: int| 0 <= k < found.len() && found[k] == t;
                assert(all[k] == t);
            } else {
                assert(all[all.len() - 1] == t);
            }
        }
    }

    /// The states that `successors` lists are those that one crossing leads
    /// to, and they are states of the problem.
    pub proof fn lemma_next_states(&self)
        requires
            self.valid(),
        ensures
            forall|t: MCState| #[trigger] self.next_states().contains(t) <==> self.leads_to(t),
            forall|t: MCState| #[trigger] self.leads_to(t) ==> t.valid(),
    {
        let c1 = self.with_candidate(Seq::empty(), (2, 0));
        let c2 = self.with_candidate(c1, (1, 0));
        let c3 = self.with_candidate(c2, (0, 2));
        let c4 = self.with_candidate(c3, (0, 1));
        let c5 = self.with_candidate(c4, (1, 1));
        self.lemma_with_candidate(Seq::empty(), (2, 0));
        self.lemma_with_candidate(c1, (1, 0));
        self.lemma_with_candidate(c2, (0, 2));
        self.lemma_with_candidate(c3, (0, 1));
        self.lemma_with_candidate(c4, (1, 1));
        lemma_legal_only(self.candidates());
        assert(loads()[0] == (2int, 0int));
        assert(loads()[1] == (1int, 0int));
        assert(loads()[2] == (0int, 2int));
        assert(loads()[3] == (0int, 1int));
        assert(loads()[4] == (1int, 1int));
        assert forall|t: MCState| #[trigger] self.next_states().contains(t) implies self.leads_to(
            t,
        ) by {
            assert(c5.contains(t) && t.legal());
            assert(!Seq::<MCState>::empty().contains(t));
            if self.can_carry((1, 1)) && t == self.crossed((1, 1)) {
                assert(self.can_carry(loads()[4]));
            } else if self.can_carry((0, 1)) && t == self.crossed((0, 1)) {
                assert(self.can_carry(loads()[3]));
            } else if self.can_carry((0, 2)) && t == self.crossed((0, 2)) {
                assert(self.can_carry(loads()[2]));
            } else if self.can_carry((1, 0)) && t == self.crossed((1, 0)) {
                assert(self.can_carry(loads()[1]));
            } else {
                assert(c1.contains(t));
                assert(self.can_carry(loads()[0]));
            }
        }
        assert forall|t: MCState| self.leads_to(t) implies #[trigger] self.next_states().contains(
            t,
        ) && t.valid() by {
            let k = choose|k: int|
                0 <= k < loads().len() && self.can_carry(#[trigger] loads()[k]) && t
                    == self.crossed(loads()[k]) && t.legal();
            assert(c5.contains(t));
        }
    }

    /// Returns the number that tells this state apart.
    fn key(&self) -> (k: u64)
        requires
            self.valid(),
        ensures
            k == self.code(),
            k < 32,
    {
        let boat: u64 = if self.boat {
            1
        } else {
            0
        };
        self.wm as u64 * 8 + self.wc as u64 * 2 + boat
    }
}

/// Whether a node of the search holds a state of the problem and a way to
/// it from `start`.
pub open spec fn sound_node(node: Node<MCState>, start: MCState) -> bool {
    node.state.valid() && route_from(node.path(), start)
}

/// Whether a node for `state` waits in `frontier`.
pub open spec fn waits_in(frontier: Seq<Node<MCState>>, state: MCState) -> bool {
    exists|j: int| 0 <= j < frontier.len() && (#[trigger] frontier[j]).state == state
}

/// Whether every state that one crossing leads to from `state` has been seen.
pub open spec fn all_seen_from(state: MCState, seen: Set<u64>) -> bool {
    forall|t: MCState| #[trigger] state.leads_to(t) ==> seen.contains(t.code() as u64)
}

/// What the search knows of the states that it has dealt with: none is the
/// goal, what they lead to has been seen, and what has been seen is dealt
/// with, or waits, or is `current`.
#[verifier::opaque]
pub open spec fn search_covers(
    expanded: Set<MCState>,
    frontier: Seq<Node<MCState>>,
    seen: Set<u64>,
    start: MCState,
    current: Option<MCState>,
) -> bool {
    &&& forall|x: MCState| #[trigger]
        expanded.contains(x) ==> x.valid() && !x.done() && all_seen_from(x, seen)
    &&& forall|t: MCState|
        t.valid() && #[trigger] seen.contains(t.code() as u64) ==> expanded.contains(t)
            || waits_in(frontier, t) || current == Some(t)
    &&& expanded.contains(start) || waits_in(frontier, start) || current == Some(start)
}

/// The numbers of the states that have not been seen.
pub open spec fn unseen(seen: Set<u64>) -> Set<int> {
    set_int_range(0, 32).filter(|k: int| !seen.contains(k as u64))
}

/// Seeing one more state leaves one state less unseen.
proof fn lemma_unseen_shrinks(seen: Set<u64>, k: u64)
    requires
        k < 32,
        !seen.contains(k),
    ensures
        unseen(seen).finite(),
        unseen(seen.insert(k)).finite(),
        unseen(seen.insert(k)).len() + 1 == unseen(seen).len(),
{
    lemma_int_range(0, 32);
    lemma_len_subset(unseen(seen), set_int_range(0, 32));
    lemma_len_subset(unseen(seen.insert(k)), set_int_range(0, 32));
    assert(unseen(seen).contains(k as int));
    assert(unseen(seen.insert(k)) == unseen(seen).remove(k as int)) by {
        assert forall|j: int|
            unseen(seen.insert(k)).contains(j) <==> unseen(seen).remove(k as int).contains(j) by {
            if 0 <= j < 32 && j != k {
                assert(j as u64 != k);
            }
        }
    }
}

/// A search that starts covers what it has to.
proof fn lemma_covers_at_start(first: Node<MCState>)
    ensures
        search_covers(Set::empty(), seq![first], Set::empty(), first.state, None),
{
    reveal(search_covers);
    assert(seq![first][0].state == first.state);
}

/// Taking the first node from the frontier keeps what the search covers,
/// with the state of that node as the current one.
proof fn lemma_covers_after_pop(
    expanded: Set<MCState>,
    frontier: Seq<Node<MCState>>,
    seen: Set<u64>,
    start: MCState,
)
    requires
        frontier.len() > 0,
        search_covers(expanded, frontier, seen, start, None),
    ensures
        search_covers(
            expanded,
            frontier.subrange(1, frontier.len() as int),
            seen,
            start,
            Some(frontier[0].state),
        ),
{
    reveal(search_covers);
    let rest = frontier.subrange(1, frontier.len() as int);
    assert forall|t: MCState| waits_in(frontier, t) implies waits_in(rest, t) || t
        == frontier[0].state by {
        let j = choose|j: int| 0 <= j < frontier.len() && (#[trigger] frontier[j]).state == t;
        if j > 0 {
            assert(rest[j - 1].state == t);
        }
    }
}

/// Seeing a new state and putting a node for it at the end of the frontier
/// keeps what the search covers.
proof fn lemma_covers_after_push(
    expanded: Set<MCState>,
    frontier: Seq<Node<MCState>>,
    seen: Set<u64>,
    start: MCState,
    current: MCState,
    next: Node<MCState>,
)
    requires
        search_covers(expanded, frontier, seen, start, Some(current)),
        next.state.valid(),
    ensures
        search_covers(
            expanded,
            frontier.push(next),
            seen.insert(next.state.code() as u64),
            start,
            Some(current),
        ),
{
    reveal(search_covers);
    let longer = frontier.push(next);
    let more = seen.insert(next.state.code() as u64);
    assert(longer[longer.len() - 1].state == next.state);
    assert forall|t: MCState| waits_in(frontier, t) implies waits_in(longer, t) by {
        let j = choose|j: int| 0 <= j < frontier.len() && (#[trigger] frontier[j]).state == t;
        assert(longer[j].state == t);
    }
    assert forall|t: MCState| t.valid() && #[trigger] more.contains(t.code() as u64) implies expanded.contains(
        t,
    ) || waits_in(longer, t) || Some(current) == Some(t) by {
        if !seen.contains(t.code() as u64) {
            assert(t.code() == next.state.code());
            assert(t == next.state);
        }
    }
    assert forall|x: MCState| #[trigger] expanded.contains(x) implies x.valid() && !x.done()
        && all_seen_from(x, more) by {
        assert(all_seen_from(x, seen));
    }
}

/// When all that the current state leads to has been seen, and it is not
/// the goal, the search has dealt with it.
proof fn lemma_covers_after_expansion(
    expanded: Set<MCState>,
    frontier: Seq<Node<MCState>>,
    seen: Set<u64>,
    start: MCState,
    current: MCState,
)
    requires
        search_covers(expanded, frontier, seen, start, Some(current)),
        current.valid(),
        !current.done(),
        all_seen_from(current, seen),
    ensures
        search_covers(expanded.insert(current), frontier, seen, start, None),
{
    reveal(search_covers);
}

/// Where the search has dealt with every state that it has seen, and the
/// start is among them, every way from the start stays among them, and so
/// does not reach the goal.
proof fn lemma_covered_routes(
    expanded: Set<MCState>,
    seen: Set<u64>,
    start: MCState,
    path: Seq<MCState>,
)
    requires
        search_covers(expanded, Seq::empty(), seen, start, None),
        route_from(path, start),
    ensures
        expanded.contains(path.last()),
        !path.last().done(),
    decreases path.len(),
{
    reveal(search_covers);
    if path.len() > 1 {
        let front = path.drop_last();
        assert(route_from(front, start)) by {
            assert forall|i: int| 0 <= i < front.len() - 1 implies (#[trigger] front[i]).leads_to(
                front[i + 1],
            ) by {
                assert(path[i].leads_to(path[i + 1]));
            }
        }
        lemma_covered_routes(expanded, seen, start, front);
        let x = front.last();
        let t = path.last();
        assert(x == path[path.len() - 2]);
        assert(path[path.len() - 2].leads_to(path[path.len() - 2 + 1]));
        assert(x.leads_to(t));
        x.lemma_next_states();
        assert(seen.contains(t.code() as u64));
        assert(!waits_in(Seq::<Node<MCState>>::empty(), t));
    } else {
        assert(!waits_in(Seq::<Node<MCState>>::empty(), start));
    }
}

/// A node for a state that the state of `parent` leads to holds a way to
/// it where `parent` holds a way to its own state.
proof fn lemma_sound_child(parent: Node<MCState>, next: Node<MCState>, start: MCState)
    requires
        sound_node(parent, start),
        next.parent == Some(Rc::new(parent)),
        parent.state.leads_to(next.state),
    ensures
        sound_node(next, start),
{
    parent.lemma_path();
    next.lemma_path();
    parent.state.lemma_next_states();
    let way = next.path();
    assert(way == parent.path().push(next.state));
    assert forall|j: int| 0 <= j < way.len() - 1 implies (#[trigger] way[j]).leads_to(
        way[j + 1],
    ) by {
        if j < way.len() - 2 {
            assert(parent.path()[j].leads_to(parent.path()[j + 1]));
        }
    }
}

/// When every state that `successors` lists has been seen, all that the
/// state leads to has been seen.
proof fn lemma_all_seen(state: MCState, children: Seq<MCState>, seen: Set<u64>)
    requires
        state.valid(),
        children == state.next_states(),
        forall|j: int| 0 <= j < children.len() ==> seen.contains((#[trigger] children[j]).code() as u64),
    ensures
        all_seen_from(state, seen),
{
    state.lemma_next_states();
    assert forall|t: MCState| #[trigger] state.leads_to(t) implies seen.contains(
        t.code() as u64,
    ) by {
        assert(children.contains(t));
        let j = choose|j: int| 0 <= j < children.len() && children[j] == t;
        assert(seen.contains(children[j].code() as u64));
    }
}

/// A state that `successors` lists is one that the state leads to, and a
/// state of the problem.
proof fn lemma_child(state: MCState, children: Seq<MCState>, i: int)
    requires
        state.valid(),
        children == state.next_states(),
        0 <= i < children.len(),
    ensures
        state.leads_to(children[i]),
        children[i].valid(),
{
    state.lemma_next_states();
    assert(children.contains(children[i]));
}

/// The number of crossings on the way that a node holds.
pub open spec fn steps(node: Node<MCState>) -> int {
    node.path().len() - 1
}

/// What the search knows of the order in which it reaches the states, when
/// the nodes that wait hold ways of `level` crossings, or one more: they
/// wait by the number of their crossings; every state within fewer crossings
/// than `level` has been dealt with; every state within `level` crossings
/// has been dealt with, or waits, or is `current`; and a node that waits
/// holds a shortest way to its state, unless the state has been dealt with.
#[verifier::opaque]
pub open spec fn search_in_order(
    expanded: Set<MCState>,
    frontier: Seq<Node<MCState>>,
    seen: Set<u64>,
    start: MCState,
    level: int,
    current: Option<MCState>,
) -> bool {
    &&& forall|j: int|
        0 <= j < frontier.len() ==> level <= steps(#[trigger] frontier[j]) <= level + 1
    &&& forall|i: int, j: int|
        0 <= i < j < frontier.len() ==> steps(#[trigger] frontier[i]) <= steps(
            #[trigger] frontier[j],
        )
    &&& forall|r: Seq<MCState>| #[trigger]
        route_from(r, start) && r.len() - 1 < level ==> expanded.contains(r.last())
    &&& forall|r: Seq<MCState>| #[trigger]
        route_from(r, start) && r.len() - 1 <= level ==> expanded.contains(r.last()) || waits_in(
            frontier,
            r.last(),
        ) || current == Some(r.last())
    &&& forall|j: int, r: Seq<MCState>|
        0 <= j < frontier.len() && #[trigger] route_from(r, start) && r.last() == (
        #[trigger] frontier[j]).state ==> expanded.contains(r.last()) || steps(frontier[j])
            <= r.len() - 1
    &&& forall|j: int|
        0 <= j < frontier.len() ==> seen.contains((#[trigger] frontier[j]).state.code() as u64)
            || frontier[j].state == start
    &&& level >= 1 ==> expanded.contains(start)
}

/// A search that starts is in order.
proof fn lemma_order_at_start(first: Node<MCState>)
    requires
        first.parent is None,
    ensures
        search_in_order(Set::empty(), seq![first], Set::empty(), first.state, 0, None),
{
    reveal(search_in_order);
    first.lemma_path();
    let q = seq![first];
    assert(q[0] == first);
    assert forall|r: Seq<MCState>| #[trigger]
        route_from(r, first.state) && r.len() - 1 <= 0 implies waits_in(q, r.last()) by {
        assert(r.last() == r[0]);
        assert(q[0].state == r.last());
    }
}

/// Taking the first node from the frontier keeps the search in order, with
/// the state of that node as the current one.
proof fn lemma_order_after_pop(
    expanded: Set<MCState>,
    frontier: Seq<Node<MCState>>,
    seen: Set<u64>,
    start: MCState,
    level: int,
)
    requires
        frontier.len() > 0,
        search_in_order(expanded, frontier, seen, start, level, None),
    ensures
        search_in_order(
            expanded,
            frontier.subrange(1, frontier.len() as int),
            seen,
            start,
            level,
            Some(frontier[0].state),
        ),
{
    reveal(search_in_order);
    let rest = frontier.subrange(1, frontier.len() as int);
    assert forall|j: int| 0 <= j < rest.len() implies #[trigger] rest[j] == frontier[j + 1] by {}
    assert forall|t: MCState| waits_in(frontier, t) implies waits_in(rest, t) || t
        == frontier[0].state by {
        let j = choose|j: int| 0 <= j < frontier.len() && (#[trigger] frontier[j]).state == t;
        if j > 0 {
            assert(rest[j - 1].state == t);
        }
    }
    assert forall|i: int, j: int| 0 <= i < j < rest.len() implies steps(#[trigger] rest[i])
        <= steps(#[trigger] rest[j]) by {
        assert(rest[i] == frontier[i + 1]);
        assert(rest[j] == frontier[j + 1]);
    }
    assert forall|j: int, r: Seq<MCState>|
        0 <= j < rest.len() && #[trigger] route_from(r, start) && r.last() == (
        #[trigger] rest[j]).state implies expanded.contains(r.last()) || steps(rest[j]) <= r.len()
        - 1 by {
        assert(rest[j] == frontier[j + 1]);
    }
}

/// One crossing changes the state.
proof fn lemma_crossing_moves(state: MCState, next: MCState)
    requires
        state.leads_to(next),
    ensures
        state != next,
{
}

/// Seeing a new state and putting a node for it at the end of the frontier
/// keeps the search in order.
proof fn lemma_order_after_push(
    expanded: Set<MCState>,
    frontier: Seq<Node<MCState>>,
    seen: Set<u64>,
    start: MCState,
    level: int,
    parent: Node<MCState>,
    next: Node<MCState>,
)
    requires
        search_in_order(expanded, frontier, seen, start, level, Some(parent.state)),
        sound_node(parent, start),
        steps(parent) == level,
        parent.state.leads_to(next.state),
        steps(next) == level + 1,
        !seen.contains(next.state.code() as u64),
    ensures
        search_in_order(
            expanded,
            frontier.push(next),
            seen.insert(next.state.code() as u64),
            start,
            level,
            Some(parent.state),
        ),
{
    reveal(search_in_order);
    let longer = frontier.push(next);
    let more = seen.insert(next.state.code() as u64);
    let last = longer.len() - 1;
    assert(longer[last] == next);
    assert forall|j: int| 0 <= j < frontier.len() implies #[trigger] longer[j] == frontier[j] by {}
    assert forall|t: MCState| waits_in(frontier, t) implies waits_in(longer, t) by {
        let j = choose|j: int| 0 <= j < frontier.len() && (#[trigger] frontier[j]).state == t;
        assert(longer[j].state == t);
    }
    parent.lemma_path();
    lemma_crossing_moves(parent.state, next.state);
    assert forall|i: int, j: int| 0 <= i < j < longer.len() implies steps(#[trigger] longer[i])
        <= steps(#[trigger] longer[j]) by {
        if j < last {
            assert(longer[i] == frontier[i]);
            assert(longer[j] == frontier[j]);
        } else {
            assert(longer[i] == frontier[i]);
        }
    }
    assert forall|j: int, r: Seq<MCState>|
        0 <= j < longer.len() && #[trigger] route_from(r, start) && r.last() == (
        #[trigger] longer[j]).state implies expanded.contains(r.last()) || steps(longer[j])
        <= r.len() - 1 by {
        if j < last {
            assert(longer[j] == frontier[j]);
        } else if r.len() - 1 <= level {
            if waits_in(frontier, next.state) {
                let i = choose|i: int|
                    0 <= i < frontier.len() && (#[trigger] frontier[i]).state == next.state;
                assert(next.state == start);
                if level == 0 {
                    assert(parent.path().len() == 1);
                    assert(parent.path()[0] == start);
                    assert(parent.state == start);
                }
            }
        }
    }
    assert forall|j: int| 0 <= j < longer.len() implies more.contains(
        (#[trigger] longer[j]).state.code() as u64,
    ) || longer[j].state == start by {
        if j < last {
            assert(longer[j] == frontier[j]);
        }
    }
}

/// When the current state has been dealt with, the search is in order at
/// the level of the node that waits first.
proof fn lemma_order_after_expansion(
    expanded: Set<MCState>,
    frontier: Seq<Node<MCState>>,
    seen: Set<u64>,
    start: MCState,
    level: int,
    current: Node<MCState>,
)
    requires
        search_in_order(expanded, frontier, seen, start, level, Some(current.state)),
        search_covers(expanded.insert(current.state), frontier, seen, start, None),
        sound_node(current, start),
        steps(current) == level,
        start.valid(),
    ensures
        search_in_order(
            expanded.insert(current.state),
            frontier,
            seen,
            start,
            if frontier.len() > 0 {
                steps(frontier[0])
            } else {
                level
            },
            None,
        ),
{
    reveal(search_in_order);
    reveal(search_covers);
    let done = expanded.insert(current.state);
    current.lemma_path();
    if frontier.len() > 0 && steps(frontier[0]) != level {
        let next_level = level + 1;
        assert(steps(frontier[0]) == next_level);
        assert forall|j: int| 0 <= j < frontier.len() implies steps(#[trigger] frontier[j])
            == next_level by {
            if j > 0 {
                assert(steps(frontier[0]) <= steps(frontier[j]));
            }
        }
        assert forall|r: Seq<MCState>| #[trigger]
            route_from(r, start) && r.len() - 1 < next_level implies done.contains(r.last()) by {
            if waits_in(frontier, r.last()) {
                let j = choose|j: int|
                    0 <= j < frontier.len() && (#[trigger] frontier[j]).state == r.last();
                assert(steps(frontier[j]) == next_level);
            }
        }
        if level == 0 {
            assert(current.path().len() == 1);
            assert(current.path()[0] == start);
            assert(current.state == start);
        }
        assert forall|r: Seq<MCState>| #[trigger]
            route_from(r, start) && r.len() - 1 <= next_level implies done.contains(r.last())
            || waits_in(frontier, r.last()) by {
            if r.len() - 1 == next_level {
                let front = r.drop_last();
                assert(route_from(front, start)) by {
                    assert forall|i: int| 0 <= i < front.len() - 1 implies (
                    #[trigger] front[i]).leads_to(front[i + 1]) by {
                        assert(r[i].leads_to(r[i + 1]));
                    }
                }
                let p = front.last();
                assert(done.contains(p));
                assert(p == r[r.len() - 2]);
                assert(r[r.len() - 2].leads_to(r[r.len() - 2 + 1]));
                assert(p.leads_to(r.last()));
                p.lemma_next_states();
                assert(all_seen_from(p, seen));
                assert(seen.contains(r.last().code() as u64));
            }
        }
    }
}

/// The way that a goal node holds when it is taken from the frontier is a
/// shortest way to the goal.
proof fn lemma_goal_is_nearest(
    expanded: Set<MCState>,
    frontier: Seq<Node<MCState>>,
    seen: Set<u64>,
    start: MCState,
    level: int,
    current: Node<MCState>,
    other: Seq<MCState>,
)
    requires
        search_in_order(expanded, frontier, seen, start, level, Some(current.state)),
        search_covers(expanded, frontier, seen, start, Some(current.state)),
        steps(current) == level,
        route_from(other, start),
        other.last().done(),
    ensures
        current.path().len() <= other.len(),
{
    reveal(search_in_order);
    reveal(search_covers);
}

impl MCState {
    /// Breadth-first search for a way to the goal. Returns the node of the
    /// goal, from which a shortest way can be read, or `None` where the goal
    /// cannot be reached.
    #[verifier::rlimit(50)]
    pub fn bfs(&mut self) -> (found: Option<Node<MCState>>)
        requires
            old(self).valid(),
        ensures
            *final(self) == *old(self),
            found.is_some() == solvable(*old(self)),
            found matches Some(node) ==> route_from(node.path(), *old(self)) && node.state.done(),
            found matches Some(node) ==> forall|other: Seq<MCState>|
                #[trigger] route_from(other, *old(self)) && other.last().done() ==> node.path().len()
                    <= other.len(),
    {
        broadcast use vstd::std_specs::hash::group_hash_axioms;

        let initial = *self;
        let mut frontier: VecDeque<Node<MCState>> = VecDeque::new();
        let first = Node { state: initial, parent: None, cost: 0, heuristic: 0 };
        proof {
            first.lemma_path();
            lemma_covers_at_start(first);
            lemma_order_at_start(first);
        }
        frontier.push_back(first);
        let mut seen: HashSet<u64> = HashSet::new();
        let ghost mut expanded: Set<MCState> = Set::empty();
        let ghost mut level: int = 0;
        proof {
            assert(frontier@ == seq![first]);
            lemma_int_range(0, 32);
            lemma_len_subset(unseen(seen@), set_int_range(0, 32));
        }
        while frontier.len() > 0
            invariant
                *self == initial,
                initial.valid(),
                forall|j: int| 0 <= j < frontier.len() ==> sound_node(#[trigger] frontier@[j], initial),
                forall|k: u64| #[trigger] seen@.contains(k) ==> k < 32,
                search_covers(expanded, frontier@, seen@, initial, None),
                search_in_order(expanded, frontier@, seen@, initial, level, None),
                frontier.len() > 0 ==> level == steps(frontier@[0]),
                unseen(seen@).finite(),
            decreases 2 * unseen(seen@).len() + frontier.len(),
        {
            let ghost before = frontier@;
            let cur = frontier.pop_front().unwrap();
            let cur_state = cur.state;
            proof {
                cur.lemma_path();
                assert(sound_node(before[0], initial));
                lemma_covers_after_pop(expanded, before, seen@, initial);
                lemma_order_after_pop(expanded, before, seen@, initial, level);
                assert forall|j: int| 0 <= j < frontier.len() implies sound_node(
                    #[trigger] frontier@[j],
                    initial,
                ) by {
                    assert(frontier@[j] == before[j + 1]);
                }
            }
            if cur_state.goal() {
                proof {
                    assert(route_from(cur.path(), initial) && cur.path().last().done());
                    assert forall|other: Seq<MCState>|
                        #[trigger] route_from(other, initial)
                            && other.last().done() implies cur.path().len() <= other.len() by {
                        lemma_goal_is_nearest(
                            expanded,
                            frontier@,
                            seen@,
                            initial,
                            level,
                            cur,
                            other,
                        );
                    }
                }
                return Some(cur);
            }
            let ghost cur_seen = cur;
            let cur_node = Rc::new(cur);
            let children = cur_state.successors();
            let ghost measure = 2 * unseen(seen@).len() + frontier.len();
            let mut i: usize = 0;
            while i < children.len()
                invariant
                    i <= children.len(),
                    initial.valid(),
                    cur_state.valid(),
                    *cur_node == cur_seen,
                    cur_seen.state == cur_state,
                    sound_node(cur_seen, initial),
                    steps(cur_seen) == level,
                    children@ == cur_state.next_states(),
                    forall|j: int|
                        0 <= j < frontier.len() ==> sound_node(#[trigger] frontier@[j], initial),
                    forall|k: u64| #[trigger] seen@.contains(k) ==> k < 32,
                    search_covers(expanded, frontier@, seen@, initial, Some(cur_state)),
                    search_in_order(expanded, frontier@, seen@, initial, level, Some(cur_state)),
                    forall|j: int|
                        0 <= j < i ==> seen@.contains((#[trigger] children@[j]).code() as u64),
                    unseen(seen@).finite(),
                    2 * unseen(seen@).len() + frontier.len() <= measure,
                decreases children.len() - i,
            {
                let child = children[i];
                proof {
                    lemma_child(cur_state, children@, i as int);
                }
                let k = child.key();
                if !seen.contains(&k) {
                    proof {
                        lemma_unseen_shrinks(seen@, k);
                    }
                    let ghost waiting = frontier@;
                    let ghost seen_before = seen@;
                    seen.insert(k);
                    let next = Node {
                        state: child,
                        parent: Some(share(&cur_node)),
                        cost: 0,
                        heuristic: 0,
                    };
                    proof {
                        lemma_sound_child(cur_seen, next, initial);
                        lemma_covers_after_push(
                            expanded,
                            waiting,
                            seen_before,
                            initial,
                            cur_state,
                            next,
                        );
                        cur_seen.lemma_path();
                        next.lemma_path();
                        lemma_order_after_push(
                            expanded,
                            waiting,
                            seen_before,
                            initial,
                            level,
                            cur_seen,
                            next,
                        );
                    }
                    frontier.push_back(next);
                }
                i += 1;
            }
            proof {
                lemma_all_seen(cur_state, children@, seen@);
                lemma_covers_after_expansion(expanded, frontier@, seen@, initial, cur_state);
                lemma_order_after_expansion(expanded, frontier@, seen@, initial, level, cur_seen);
                expanded = expanded.insert(cur_state);
                if frontier.len() > 0 {
                    level = steps(frontier@[0]);
                }
            }
        }
        proof {
            assert(frontier@ == Seq::<Node<MCState>>::empty());
            assert forall|path: Seq<MCState>| #[trigger]
                route_from(path, initial) implies !path.last().done() by {
                lemma_covered_routes(expanded, seen@, initial, path);
            }
        }
        None
    }
}

/// Whether `path` is a way from `start` to `goal` that no other way beats
/// in length.
pub open spec fn shortest_route(path: Seq<MCState>, start: MCState, goal: MCState) -> bool {
    &&& route_from(path, start)
    &&& path.last() == goal
    &&& forall|other: Seq<MCState>|
        #[trigger] route_from(other, start) && other.last() == goal ==> path.len() <= other.len()
}

/// Searches a shortest way from `start` to `goal`.
///
/// Calls `bfs` of `pathfinding::directed::bfs` with `successors` for the
/// states that follow a state, and with equality to `goal` as the test of
/// success. The contract claims what the documentation of `bfs` promises: a
/// shortest path from the start to a state that passes the test, both
/// included, or `None` where there is no path. It rests on `bfs` telling
/// states apart as `==` does. From a state of the problem only states of the
/// problem are reached, they are finitely many, and so `bfs` returns.
#[verifier::external_body]
fn search_shortest(start: &MCState, goal: &MCState) -> (found: Option<Vec<MCState>>)
    requires
        start.valid(),
    ensures
        found matches Some(path) ==> shortest_route(path@, *start, *goal),
        found is None ==> forall|path: Seq<MCState>| #[trigger]
            route_from(path, *start) ==> path.last() != *goal,
{
    pathfinding::directed::bfs::bfs(start, |p| p.successors(), |p| p.same(goal))
}

impl MCState {
    /// Returns whether the state is one of the problem.
    pub fn is_valid(&self) -> (b: bool)
        ensures
            b == self.valid(),
    {
        0 <= self.wm && self.wm <= MAX_NUM && 0 <= self.wc && self.wc <= MAX_NUM && self.em
            == MAX_NUM - self.wm && self.ec == MAX_NUM - self.wc
    }

    /// Returns the missionaries and the cannibals that the boat carries
    /// from this state to `next`, both states of the problem: those who
    /// leave the bank that the boat leaves.
    pub fn crossing(&self, next: &MCState) -> (load: (i32, i32))
        requires
            self.valid(),
            next.valid(),
        ensures
            load == if next.boat {
                ((self.em - next.em) as i32, (self.ec - next.ec) as i32)
            } else {
                ((self.wm - next.wm) as i32, (self.wc - next.wc) as i32)
            },
            self.leads_to(*next) ==> exists|k: int|
                0 <= k < loads().len() && #[trigger] loads()[k] == (load.0 as int, load.1 as int),
    {
        proof {
            if self.leads_to(*next) {
                let k = choose|k: int|
                    0 <= k < loads().len() && self.can_carry(#[trigger] loads()[k]) && *next
                        == self.crossed(loads()[k]) && next.legal();
                assert(loads()[k].0 >= 0 && loads()[k].1 >= 0) by {
                    assert(loads()[0] == (2int, 0int));
                    assert(loads()[1] == (1int, 0int));
                    assert(loads()[2] == (0int, 2int));
                    assert(loads()[3] == (0int, 1int));
                    assert(loads()[4] == (1int, 1int));
                }
            }
        }
        if next.boat {
            (self.em - next.em, self.ec - next.ec)
        } else {
            (self.wm - next.wm, self.wc - next.wc)
        }
    }

    /// Returns whether the two states are equal.
    pub fn same(&self, other: &MCState) -> (b: bool)
        ensures
            b == (*self == *other),
    {
        self.wm == other.wm && self.wc == other.wc && self.em == other.em && self.ec == other.ec
            && self.boat == other.boat
    }

    /// Returns a shortest way from this state to the state in which
    /// everyone, and the boat, is on the east bank, or `None` where there is
    /// no way.
    pub fn shortest_way(&self) -> (found: Option<Vec<MCState>>)
        requires
            self.valid(),
        ensures
            found matches Some(path) ==> shortest_route(
                path@,
                *self,
                MCState { wm: 0, wc: 0, em: MAX_NUM, ec: MAX_NUM, boat: false },
            ),
            found is None ==> forall|path: Seq<MCState>| #[trigger]
                route_from(path, *self) ==> path.last() != (MCState {
                    wm: 0,
                    wc: 0,
                    em: MAX_NUM,
                    ec: MAX_NUM,
                    boat: false,
                }),
    {
        let goal = MCState::new(0, 0, false);
        search_shortest(self, &goal)
    }
}

} // verus!
