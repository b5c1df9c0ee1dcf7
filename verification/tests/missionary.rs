use classic::missionary::{MCState, MAX_NUM};
use classic::node::Node;
use std::rc::Rc;

#[test]
fn a_state_places_the_others_on_the_east_bank() {
    assert_eq!(MAX_NUM, 3);
    assert_eq!(MCState::new(3, 3, true), MCState { wm: 3, wc: 3, em: 0, ec: 0, boat: true });
    assert_eq!(MCState::new(1, 2, false), MCState { wm: 1, wc: 2, em: 2, ec: 1, boat: false });
    assert_eq!(MCState::new(0, 0, false), MCState { wm: 0, wc: 0, em: 3, ec: 3, boat: false });
}

#[test]
fn missionaries_must_not_be_outnumbered() {
    assert!(MCState::new(3, 3, true).is_legal());
    assert!(MCState::new(0, 3, true).is_legal());
    assert!(MCState::new(3, 0, false).is_legal());
    assert!(MCState::new(2, 2, true).is_legal());
    assert!(MCState::new(1, 1, false).is_legal());
    // outnumbered on the west bank
    assert!(!MCState::new(1, 2, true).is_legal());
    assert!(!MCState::new(2, 3, true).is_legal());
    // outnumbered on the east bank
    assert!(!MCState::new(2, 1, true).is_legal());
    assert!(!MCState::new(1, 0, false).is_legal());
}

#[test]
fn the_goal_is_everyone_on_the_east_bank() {
    assert!(MCState::new(0, 0, false).goal());
    assert!(MCState::new(0, 0, true).goal());
    assert!(!MCState::new(3, 3, true).goal());
    assert!(!MCState::new(0, 1, false).goal());
    assert!(!MCState::new(1, 0, true).goal());
}

#[test]
fn crossings_from_the_start() {
    assert_eq!(
        MCState::new(3, 3, true).successors(),
        vec![MCState::new(3, 1, false), MCState::new(3, 2, false), MCState::new(2, 2, false)]
    );
}

#[test]
fn crossings_back_to_the_west_bank() {
    assert_eq!(
        MCState::new(2, 2, false).successors(),
        vec![MCState::new(3, 2, true), MCState::new(3, 3, true)]
    );
    assert_eq!(
        MCState::new(0, 0, false).successors(),
        vec![MCState::new(0, 2, true), MCState::new(0, 1, true), MCState::new(1, 1, true)]
    );
}

#[test]
fn crossings_need_the_boat_on_the_bank() {
    // nobody is on the west bank, where the boat lies
    assert_eq!(MCState::new(0, 0, true).successors(), vec![]);
    // nobody is on the east bank, where the boat lies
    assert_eq!(MCState::new(3, 3, false).successors(), vec![]);
}

#[test]
fn crossings_in_the_order_of_the_loads() {
    assert_eq!(
        MCState::new(3, 1, true).successors(),
        vec![
            MCState::new(1, 1, false),
            MCState::new(3, 0, false),
            MCState::new(2, 0, false).clone(),
        ]
        .into_iter()
        .filter(|s| s.is_legal())
        .collect::<Vec<_>>()
    );
    assert_eq!(
        MCState::new(3, 1, true).successors(),
        vec![MCState::new(1, 1, false), MCState::new(3, 0, false)]
    );
}

fn is_way(path: &[MCState], start: MCState) {
    assert_eq!(path[0], start);
    for pair in path.windows(2) {
        assert!(pair[0].successors().contains(&pair[1]));
        assert!(pair[1].is_legal());
    }
}

#[test]
fn the_search_finds_a_way_across() {
    let mut start = MCState::new(MAX_NUM, MAX_NUM, true);
    let found = start.bfs().unwrap();
    assert_eq!(start, MCState::new(3, 3, true));
    assert!(found.state.goal());
    assert_eq!(found.state, MCState::new(0, 0, false));
    let path = found.to_path();
    is_way(&path, start);
    assert_eq!(*path.last().unwrap(), found.state);
    // eleven crossings are needed, and the search finds no longer way
    assert_eq!(path.len(), 12);
    assert_eq!(
        path,
        vec![
            MCState::new(3, 3, true),
            MCState::new(3, 1, false),
            MCState::new(3, 2, true),
            MCState::new(3, 0, false),
            MCState::new(3, 1, true),
            MCState::new(1, 1, false),
            MCState::new(2, 2, true),
            MCState::new(0, 2, false),
            MCState::new(0, 3, true),
            MCState::new(0, 1, false),
            MCState::new(1, 1, true),
            MCState::new(0, 0, false),
        ]
    );
}

#[test]
fn the_search_from_the_goal_ends_at_once() {
    let mut start = MCState::new(0, 0, false);
    let found = start.bfs().unwrap();
    assert_eq!(found.state, start);
    assert_eq!(found.parent, None);
    assert_eq!(found.to_path(), vec![start]);
}

#[test]
fn the_search_from_other_states() {
    for wm in 0..=3 {
        for wc in 0..=3 {
            for &boat in [true, false].iter() {
                let mut start = MCState::new(wm, wc, boat);
                let by_bfs = start.bfs();
                let by_library = start.shortest_way();
                match by_bfs {
                    Some(node) => {
                        let path = node.to_path();
                        is_way(&path, start);
                        assert!(path.last().unwrap().goal());
                        if *path.last().unwrap() == MCState::new(0, 0, false) {
                            let other = by_library.unwrap();
                            is_way(&other, start);
                            assert_eq!(*other.last().unwrap(), MCState::new(0, 0, false));
                            assert_eq!(other.len(), path.len());
                        }
                    }
                    None => assert_eq!(by_library, None),
                }
            }
        }
    }
}

#[test]
fn no_way_leads_out_of_a_state_without_crossings() {
    // the boat is on the east bank, and nobody is there to row it
    let mut stuck = MCState::new(3, 3, false);
    assert_eq!(stuck.bfs(), None);
    assert_eq!(stuck.shortest_way(), None);
    // two cannibals wait with the boat for a missionary who cannot come
    let mut stuck = MCState::new(1, 3, true);
    assert!(stuck.bfs().is_some() || stuck.shortest_way().is_none());
}

#[test]
fn the_shortest_way_across() {
    let start = MCState::new(MAX_NUM, MAX_NUM, true);
    let path = start.shortest_way().unwrap();
    is_way(&path, start);
    assert_eq!(path.len(), 12);
    assert_eq!(*path.last().unwrap(), MCState::new(0, 0, false));
    assert_eq!(MCState::new(0, 0, false).shortest_way(), Some(vec![MCState::new(0, 0, false)]));
}

#[test]
fn states_are_compared_by_their_fields() {
    assert!(MCState::new(2, 1, true).same(&MCState::new(2, 1, true)));
    assert!(!MCState::new(2, 1, true).same(&MCState::new(2, 1, false)));
    assert!(!MCState::new(2, 1, true).same(&MCState::new(1, 2, true)));
    assert!(!MCState::new(2, 1, true).same(&MCState { wm: 2, wc: 1, em: 0, ec: 2, boat: true }));
}

#[test]
fn a_path_runs_from_the_first_node_to_the_last() {
    let root = Node { state: 'a', parent: None, cost: 0, heuristic: 0 };
    assert_eq!(root.to_path(), vec!['a']);
    let second = Node { state: 'b', parent: Some(Rc::new(root)), cost: 1, heuristic: 0 };
    assert_eq!(second.to_path(), vec!['a', 'b']);
    let shared = Rc::new(second);
    let third = Node { state: 'c', parent: Some(shared.clone()), cost: 2, heuristic: 0 };
    let other = Node { state: 'd', parent: Some(shared), cost: 2, heuristic: 0 };
    assert_eq!(third.to_path(), vec!['a', 'b', 'c']);
    assert_eq!(other.to_path(), vec!['a', 'b', 'd']);
}
