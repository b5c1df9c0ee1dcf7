use classic::graph::{Edge, Graph};

#[test]
fn an_edge_and_its_reverse() {
    let e = Edge::new(3, 7);
    assert_eq!(e, Edge { u: 3, v: 7 });
    assert_eq!(e.reversed(), Edge { u: 7, v: 3 });
    assert_eq!(e.reversed().reversed(), e);
    assert_eq!(Edge::new(-1, i32::MAX).reversed(), Edge::new(i32::MAX, -1));
}

#[test]
fn an_edge_from_a_pair() {
    assert_eq!(Edge::from((2, 5)), Edge::new(2, 5));
    let e: Edge = (9, 0).into();
    assert_eq!(e, Edge { u: 9, v: 0 });
}

#[test]
fn vertices_are_numbered_as_they_are_added() {
    let mut g: Graph<char> = Graph { vertices: vec![], edges: vec![] };
    assert_eq!(g.vertex_count(), 0);
    assert_eq!(g.edge_count(), 0);
    assert_eq!(g.add_vertex('a'), 0);
    assert_eq!(g.add_vertex('b'), 1);
    assert_eq!(g.add_vertex('c'), 2);
    assert_eq!(g.vertex_count(), 3);
    assert_eq!(g.edge_count(), 0);
    assert_eq!(g.vertices, vec!['a', 'b', 'c']);
    assert_eq!(g.edges, vec![vec![], vec![], vec![]]);
}

#[test]
fn edges_are_counted_over_all_vertices() {
    let mut g: Graph<u8> = Graph {
        vertices: vec![10, 20, 30],
        edges: vec![
            vec![Edge::new(0, 1), Edge::new(0, 2)],
            vec![],
            vec![Edge::new(2, 0), Edge::new(2, 1), Edge::new(2, 2)],
        ],
    };
    assert_eq!(g.vertex_count(), 3);
    assert_eq!(g.edge_count(), 5);
    assert_eq!(g.add_vertex(40), 3);
    assert_eq!(g.vertex_count(), 4);
    assert_eq!(g.edge_count(), 5);
    assert_eq!(g.edges[3], vec![]);
    assert_eq!(g.edges[0], vec![Edge::new(0, 1), Edge::new(0, 2)]);
}
