//! A small graph framework: directed edges and a graph of adjacency lists.

use vstd::prelude::*;
use vstd::std_specs::convert::FromSpecImpl;

verus! {

/// A directed edge between two vertices, each named by its index.
#[derive(Clone, Copy, Debug, Eq, Hash, PartialEq, Structural)]
pub struct Edge {
    /// The vertex that the edge leaves.
    pub u: i32,
    /// The vertex that the edge reaches.
    pub v: i32,
}

impl Edge {
    /// Makes the edge from `u` to `v`.
    pub fn new(u: i32, v: i32) -> (edge: Edge)
        ensures
            edge == (Edge { u, v }),
    {
        Edge { u, v }
    }

    /// Returns the edge in the opposite direction.
    pub fn reversed(&self) -> (edge: Edge)
        ensures
            edge == (Edge { u: self.v, v: self.u }),
    {
        Edge { u: self.v, v: self.u }
    }
}

impl From<(i32, i32)> for Edge {
    fn from(tuple: (i32, i32)) -> (edge: Edge) {
        Edge { u: tuple.0, v: tuple.1 }
    }
}

impl FromSpecImpl<(i32, i32)> for Edge {
    open spec fn obeys_from_spec() -> bool {
        true
    }

    open spec fn from_spec(tuple: (i32, i32)) -> Edge {
        Edge { u: tuple.0, v: tuple.1 }
    }
}

/// A graph: its vertices, and for each vertex the edges that leave it.
#[derive(Clone, Debug, Eq, PartialEq)]
pub struct Graph<V> {
    pub vertices: Vec<V>,
    pub edges: Vec<Vec<Edge>>,
}

/// The number of edges in the first `n` adjacency lists.
pub open spec fn edge_total(edges: Seq<Vec<Edge>>, n: int) -> int
    decreases n,
{
    if n <= 0 {
        0
    } else {
        edge_total(edges, n - 1) + edges[n - 1].len()
    }
}

impl<V> Graph<V> {
    /// Whether the graph holds one adjacency list for each vertex, and its
    /// vertices and edges can be counted in an `i32`.
    pub open spec fn wf(&self) -> bool {
        &&& self.vertices.len() == self.edges.len()
        &&& self.vertices.len() <= i32::MAX
        &&& edge_total(self.edges@, self.edges.len() as int) <= i32::MAX
    }

    /// Returns the number of vertices.
    pub fn vertex_count(&self) -> (count: i32)
        requires
            self.wf(),
        ensures
            count == self.vertices.len(),
    {
        self.vertices.len() as i32
    }

    /// Returns the number of edges.
    pub fn edge_count(&self) -> (count: i32)
        requires
            self.wf(),
        ensures
            count == edge_total(self.edges@, self.edges.len() as int),
    {
        let mut count: i32 = 0;
        let mut i: usize = 0;
        while i < self.edges.len()
            invariant
                i <= self.edges.len(),
                count == edge_total(self.edges@, i as int),
                edge_total(self.edges@, self.edges.len() as int) <= i32::MAX,
            decreases self.edges.len() - i,
        {
            proof {
                lemma_edge_total_grows(self.edges@, i as int, i + 1);
                lemma_edge_total_grows(self.edges@, i + 1, self.edges.len() as int);
                assert(edge_total(self.edges@, i + 1) == edge_total(self.edges@, i as int)
                    + self.edges@[i as int].len());
            }
            count = count + self.edges[i].len() as i32;
            i += 1;
        }
        count
    }

    /// Adds a vertex without edges and returns its index.
    pub fn add_vertex(&mut self, vertex: V) -> (index: i32)
        requires
            old(self).wf(),
            old(self).vertices.len() < i32::MAX,
        ensures
            final(self).wf(),
            final(self).vertices@ == old(self).vertices@.push(vertex),
            final(self).edges@.len() == old(self).edges@.len() + 1,
            forall|k: int|
                0 <= k < old(self).edges@.len() ==> final(self).edges@[k] == old(self).edges@[k],
            final(self).edges@[index as int]@ == Seq::<Edge>::empty(),
            index == old(self).vertices.len(),
    {
        let ghost before = self.edges@;
        self.vertices.push(vertex);
        self.edges.push(Vec::new());
        proof {
            lemma_edge_total_same(before, self.edges@, before.len() as int);
        }
        self.vertex_count() - 1
    }
}

/// The number of edges in the first lists is at most that in more lists.
pub proof fn lemma_edge_total_grows(edges: Seq<Vec<Edge>>, n: int, m: int)
    requires
        0 <= n <= m,
    ensures
        0 <= edge_total(edges, n) <= edge_total(edges, m),
    decreases m,
{
    if n < m {
        lemma_edge_total_grows(edges, n, m - 1);
    } else if n > 0 {
        lemma_edge_total_grows(edges, n - 1, n - 1);
    }
}

/// Two sequences of lists that agree on the first `n` lists have the same
/// number of edges in them.
pub proof fn lemma_edge_total_same(a: Seq<Vec<Edge>>, b: Seq<Vec<Edge>>, n: int)
    requires
        0 <= n <= a.len(),
        n <= b.len(),
        forall|k: int| 0 <= k < n ==> a[k] == b[k],
    ensures
        edge_total(a, n) == edge_total(b, n),
    decreases n,
{
    if n > 0 {
        lemma_edge_total_same(a, b, n - 1);
    }
}

} // verus!
