use classic::csp::Constraint;
use classic::map_coloring::{australia, color_australia, Color, MapColorConstraint, Place};
use fnv::FnvHashMap;

fn colours(pairs: &[(Place, Color)]) -> FnvHashMap<u8, Color> {
    let mut m = FnvHashMap::default();
    for (p, c) in pairs.iter() {
        m.insert(p.index(), *c);
    }
    m
}

#[test]
fn places_are_numbered() {
    let all = [Place::WA, Place::NT, Place::SA, Place::Q, Place::NSW, Place::V, Place::T];
    for (i, p) in all.iter().enumerate() {
        assert_eq!(p.index() as usize, i);
    }
}

#[test]
fn neighbours_must_differ() {
    let c = MapColorConstraint(Place::WA, Place::NT);
    assert!(!c.satisfied(&colours(&[(Place::WA, Color::Red), (Place::NT, Color::Red)])));
    assert!(c.satisfied(&colours(&[(Place::WA, Color::Red), (Place::NT, Color::Blue)])));
    assert!(c.satisfied(&colours(&[(Place::NT, Color::Green), (Place::WA, Color::Blue)])));
    // a place without a colour is no conflict
    assert!(c.satisfied(&colours(&[(Place::WA, Color::Red)])));
    assert!(c.satisfied(&colours(&[(Place::NT, Color::Red)])));
    assert!(c.satisfied(&colours(&[])));
    // other places do not matter
    assert!(c.satisfied(&colours(&[
        (Place::WA, Color::Red),
        (Place::SA, Color::Red),
        (Place::Q, Color::Red)
    ])));
    assert_eq!(c.variables(), vec![0, 1]);
    assert_eq!(MapColorConstraint(Place::V, Place::T).variables(), vec![5, 6]);
}

#[test]
fn the_problem_of_the_map() {
    let csp = australia();
    assert_eq!(csp.variables, vec![0, 1, 2, 3, 4, 5, 6]);
    assert_eq!(csp.domains.len(), 7);
    assert_eq!(csp.constraints.len(), 7);
    for v in 0..7u8 {
        assert_eq!(csp.domains[&v], vec![Color::Red, Color::Blue, Color::Green]);
    }
    let c = |a, b| MapColorConstraint(a, b);
    assert_eq!(csp.constraints[&0], vec![c(Place::WA, Place::NT), c(Place::WA, Place::SA)]);
    assert_eq!(
        csp.constraints[&1],
        vec![c(Place::WA, Place::NT), c(Place::SA, Place::NT), c(Place::Q, Place::NT)]
    );
    assert_eq!(
        csp.constraints[&2],
        vec![
            c(Place::WA, Place::SA),
            c(Place::SA, Place::NT),
            c(Place::Q, Place::SA),
            c(Place::NSW, Place::SA),
            c(Place::V, Place::SA)
        ]
    );
    assert_eq!(
        csp.constraints[&3],
        vec![c(Place::Q, Place::NT), c(Place::Q, Place::SA), c(Place::Q, Place::NSW)]
    );
    assert_eq!(
        csp.constraints[&4],
        vec![c(Place::Q, Place::NSW), c(Place::NSW, Place::SA), c(Place::V, Place::NSW)]
    );
    assert_eq!(
        csp.constraints[&5],
        vec![c(Place::V, Place::SA), c(Place::V, Place::NSW), c(Place::V, Place::T)]
    );
    assert_eq!(csp.constraints[&6], vec![c(Place::V, Place::T)]);
}

#[test]
fn the_map_is_coloured() {
    let found = color_australia();
    assert_eq!(
        found,
        Some(colours(&[
            (Place::WA, Color::Blue),
            (Place::NT, Color::Red),
            (Place::SA, Color::Green),
            (Place::Q, Color::Blue),
            (Place::NSW, Color::Red),
            (Place::V, Color::Blue),
            (Place::T, Color::Red)
        ]))
    );
}

#[test]
fn no_two_neighbours_have_the_same_colour() {
    let found = color_australia().unwrap();
    let borders = [
        (Place::WA, Place::NT),
        (Place::WA, Place::SA),
        (Place::SA, Place::NT),
        (Place::Q, Place::NT),
        (Place::Q, Place::SA),
        (Place::Q, Place::NSW),
        (Place::NSW, Place::SA),
        (Place::V, Place::SA),
        (Place::V, Place::NSW),
        (Place::V, Place::T),
    ];
    for (a, b) in borders.iter() {
        assert_ne!(found[&a.index()], found[&b.index()]);
    }
    assert_eq!(found[&Place::WA.index()], Color::Blue);
    assert_eq!(found.len(), 7);
}

#[test]
fn two_colours_are_not_enough() {
    let mut csp = australia();
    for v in 0..7u8 {
        csp.domains.insert(v, vec![Color::Red, Color::Blue]);
    }
    assert_eq!(csp.backtracking_search(FnvHashMap::default()), None);
}
