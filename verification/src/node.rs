//! Search nodes: a state together with the way by which it was reached.

use std::rc::Rc;
use vstd::prelude::*;

verus! {

/// A node of a search: a state, the node from which it was reached, and the
/// cost and the estimate by which a search ranks it.
#[derive(Clone, Debug, PartialEq, Eq, Hash)]
pub struct Node<T> {
    pub state: T,
    pub parent: Option<Rc<Node<T>>>,
    pub cost: i32,
    pub heuristic: i32,
}

/// Returns another pointer to the node that `node` points to.
///
/// Calls `clone` of `std::rc::Rc`, which makes a new pointer to the same
/// allocation: the contract claims that it points to an equal node.
#[verifier::external_body]
pub(crate) fn share<T>(node: &Rc<Node<T>>) -> (other: Rc<Node<T>>)
    ensures
        other == *node,
{
    Rc::clone(node)
}

impl<T> Node<T> {
    /// The states from the first node of the search to this one.
    pub open spec fn path(&self) -> Seq<T>
        decreases self,
    {
        match self.parent {
            None => seq![self.state],
            Some(p) => p.path().push(self.state),
        }
    }

    /// A path has at least one state, and ends with the state of its node.
    pub proof fn lemma_path(&self)
        ensures
            self.path().len() >= 1,
            self.path().last() == self.state,
            self.parent matches Some(p) ==> self.path().drop_last() == p.path(),
            self.parent matches Some(p) ==> self.path()[0] == p.path()[0],
            self.parent is None ==> self.path()[0] == self.state,
        decreases self,
    {
        match self.parent {
            None => {},
            Some(p) => {
                p.lemma_path();
                assert(p.path().push(self.state).drop_last() == p.path());
            },
        }
    }
}

impl<T> Node<T> {
    /// Returns the rank by which a search orders the node: the sum of its
    /// cost and its estimate.
    pub fn rank(&self) -> (r: i64)
        ensures
            r == self.cost + self.heuristic,
    {
        self.cost as i64 + self.heuristic as i64
    }
}

impl<T: Copy> Node<T> {
    /// Returns the states from the first node of the search to this one.
    pub fn to_path(&self) -> (path: Vec<T>)
        ensures
            path@ == self.path(),
    {
        let mut back: Vec<T> = Vec::new();
        back.push(self.state);
        let mut node = self;
        proof {
            self.lemma_path();
            assert(self.path() == self.path().drop_last() + back@.reverse());
        }
        loop
            invariant
                back.len() >= 1,
                self.path() == node.path().drop_last() + back@.reverse(),
            ensures
                self.path() == back@.reverse(),
            decreases node.path().len(),
        {
            match &node.parent {
                None => {
                    proof {
                        assert(node.path().drop_last() == Seq::<T>::empty());
                    }
                    break ;
                },
                Some(p) => {
                    proof {
                        node.lemma_path();
                        p.lemma_path();
                        let longer = back@.push(p.state);
                        assert(longer.reverse() == seq![p.state] + back@.reverse());
                        assert(p.path() == p.path().drop_last().push(p.state));
                        assert(node.path().drop_last() + back@.reverse() == p.path().drop_last()
                            + longer.reverse());
                    }
                    node = &**p;
                    back.push(node.state);
                },
            }
        }
        let mut path: Vec<T> = Vec::new();
        let mut i: usize = back.len();
        while i > 0
            invariant
                i <= back.len(),
                path.len() == back.len() - i,
                forall|k: int| 0 <= k < path.len() ==> path@[k] == back@[back.len() - 1 - k],
            decreases i,
        {
            i -= 1;
            path.push(back[i]);
        }
        assert(path@ == back@.reverse());
        path
    }
}

} // verus!
