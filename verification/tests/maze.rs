use classic::maze::{random_walls, Cell, Maze, MazeLocation};

fn at(row: usize, col: usize) -> MazeLocation {
    MazeLocation { row, col }
}

/// A maze from a picture: `#` is a wall.
fn maze(picture: &[&str]) -> Maze {
    let walls: Vec<Vec<bool>> =
        picture.iter().map(|line| line.chars().map(|c| c == '#').collect()).collect();
    Maze::with_walls(picture.len(), picture[0].len(), 0, &walls)
}

fn picture(m: &Maze) -> Vec<String> {
    (0..m.rows).map(|r| (0..m.cols).map(|c| m.cell(r, c).symbol()).collect()).collect()
}

/// Whether the goal can be reached from the start, found out here by
/// flooding the maze.
fn can_be_solved(m: &Maze) -> bool {
    let mut reached = vec![vec![false; m.cols]; m.rows];
    let mut todo = vec![m.start];
    reached[m.start.row][m.start.col] = true;
    while let Some(p) = todo.pop() {
        if p == m.goal {
            return true;
        }
        for n in m.successors(p) {
            if !reached[n.row][n.col] {
                reached[n.row][n.col] = true;
                todo.push(n);
            }
        }
    }
    false
}

fn is_way(m: &Maze, path: &[MazeLocation]) {
    assert_eq!(path[0], m.start);
    assert_eq!(*path.last().unwrap(), m.goal);
    for pair in path.windows(2) {
        assert!(m.successors(pair[0]).contains(&pair[1]));
    }
}

#[test]
fn cells_have_symbols() {
    assert_eq!(Cell::Empty.symbol(), ' ');
    assert_eq!(Cell::Blocked.symbol(), '0');
    assert_eq!(Cell::Start.symbol(), 'S');
    assert_eq!(Cell::Goal.symbol(), 'G');
    assert_eq!(Cell::Path.symbol(), '.');
}

#[test]
fn a_maze_from_its_walls() {
    let m = maze(&["..#", "#..", "..."]);
    assert_eq!((m.rows, m.cols, m.sparseness), (3, 3, 0));
    assert_eq!(m.start, at(0, 0));
    assert_eq!(m.goal, at(2, 2));
    assert_eq!(picture(&m), vec!["S 0", "0  ", "  G"]);
    // a wall under the start or the goal gives way to them
    let m = maze(&["#.", ".#"]);
    assert_eq!(picture(&m), vec!["S ", " G"]);
}

#[test]
fn a_maze_of_one_cell_is_its_goal() {
    let m = Maze::new(1, 1, 50);
    assert_eq!(m.start, at(0, 0));
    assert_eq!(m.goal, at(0, 0));
    assert_eq!(m.cell(0, 0), Cell::Goal);
    let found = m.astar(m.start).unwrap();
    assert_eq!(found.to_path(), vec![at(0, 0)]);
}

#[test]
fn a_maze_without_walls() {
    let m = Maze::new(20, 20, 0);
    assert_eq!((m.rows, m.cols, m.sparseness), (20, 20, 0));
    assert_eq!(m.goal, at(19, 19));
    for r in 0..20 {
        for c in 0..20 {
            let expected = if (r, c) == (0, 0) {
                Cell::Start
            } else if (r, c) == (19, 19) {
                Cell::Goal
            } else {
                Cell::Empty
            };
            assert_eq!(m.cell(r, c), expected);
        }
    }
    let path = m.astar(m.start).unwrap().to_path();
    is_way(&m, &path);
    // 38 steps are needed, and the search takes no more
    assert_eq!(path.len(), 39);
}

#[test]
fn a_maze_of_walls() {
    let m = Maze::new(6, 4, 100);
    for r in 0..6 {
        for c in 0..4 {
            let expected = if (r, c) == (0, 0) {
                Cell::Start
            } else if (r, c) == (5, 3) {
                Cell::Goal
            } else {
                Cell::Blocked
            };
            assert_eq!(m.cell(r, c), expected);
        }
    }
    assert!(m.astar(m.start).is_none());
    assert_eq!(m.successors(at(0, 0)), vec![]);
    // start and goal side by side need no other cell
    let m = Maze::new(1, 2, 100);
    assert_eq!(m.astar(m.start).unwrap().to_path(), vec![at(0, 0), at(0, 1)]);
}

#[test]
fn a_maze_at_random() {
    for _ in 0..20 {
        let m = Maze::new(12, 9, 20);
        assert_eq!(m.cell(0, 0), Cell::Start);
        assert_eq!(m.cell(11, 8), Cell::Goal);
        for r in 0..12 {
            for c in 0..9 {
                if (r, c) != (0, 0) && (r, c) != (11, 8) {
                    assert!(m.cell(r, c) == Cell::Empty || m.cell(r, c) == Cell::Blocked);
                }
            }
        }
        match m.astar(m.start) {
            Some(node) => {
                assert!(can_be_solved(&m));
                assert_eq!(node.state, m.goal);
                is_way(&m, &node.to_path());
            }
            None => assert!(!can_be_solved(&m)),
        }
    }
}

#[test]
fn walls_at_random() {
    let walls = random_walls(7, 5, 30);
    assert_eq!(walls.len(), 7);
    assert!(walls.iter().all(|row| row.len() == 5));
    assert!(random_walls(4, 4, 0).iter().all(|row| row.iter().all(|w| !w)));
    assert!(random_walls(4, 4, 100).iter().all(|row| row.iter().all(|w| *w)));
    assert!(random_walls(4, 4, 255).iter().all(|row| row.iter().all(|w| *w)));
    assert_eq!(random_walls(0, 3, 50), Vec::<Vec<bool>>::new());
    assert_eq!(random_walls(2, 0, 50), vec![vec![], vec![]]);
    // with an even chance both kinds of cells turn up
    let many = random_walls(40, 40, 50);
    let count = many.iter().flatten().filter(|w| **w).count();
    assert!(count > 0 && count < 1600);
}

#[test]
fn filling_keeps_what_is_not_walled() {
    let mut m = maze(&["..#", "...", "#.."]);
    m.mark(&vec![at(1, 1)]);
    m.fill(&vec![
        vec![false, true, false],
        vec![false, false, false],
        vec![false, false, true],
    ]);
    assert_eq!(picture(&m), vec!["S00", " . ", "0 G"]);
    m.randomly_fill(0);
    assert_eq!(picture(&m), vec!["S00", " . ", "0 G"]);
    m.randomly_fill(100);
    assert_eq!(picture(&m), vec!["S00", "000", "00G"]);
}

#[test]
fn the_steps_from_a_place() {
    let m = maze(&["...", ".#.", "..."]);
    // below, right, above, left
    assert_eq!(m.successors(at(0, 0)), vec![at(1, 0), at(0, 1)]);
    assert_eq!(m.successors(at(0, 1)), vec![at(0, 2), at(0, 0)]);
    assert_eq!(m.successors(at(1, 0)), vec![at(2, 0), at(0, 0)]);
    assert_eq!(m.successors(at(1, 1)), vec![at(2, 1), at(1, 2), at(0, 1), at(1, 0)]);
    assert_eq!(m.successors(at(2, 2)), vec![at(1, 2), at(2, 1)]);
    assert_eq!(m.successors(at(2, 1)), vec![at(2, 2), at(2, 0)]);
}

#[test]
fn the_goal_is_told_apart() {
    let m = maze(&["...", "..."]);
    assert!(m.goal(at(1, 2)));
    assert!(!m.goal(at(0, 0)));
    assert!(!m.goal(at(2, 1)));
}

#[test]
fn the_only_way_is_found() {
    let m = maze(&[
        ".#...", //
        ".#.#.", //
        ".#.#.", //
        "...#.", //
    ]);
    let path = m.astar(m.start).unwrap().to_path();
    assert_eq!(
        path,
        vec![
            at(0, 0),
            at(1, 0),
            at(2, 0),
            at(3, 0),
            at(3, 1),
            at(3, 2),
            at(2, 2),
            at(1, 2),
            at(0, 2),
            at(0, 3),
            at(0, 4),
            at(1, 4),
            at(2, 4),
            at(3, 4)
        ]
    );
}

#[test]
fn the_shorter_of_two_ways_is_found() {
    let m = maze(&[
        ".....", //
        ".###.", //
        ".#...", //
        ".#.#.", //
        "...#.", //
    ]);
    let path = m.astar(m.start).unwrap().to_path();
    is_way(&m, &path);
    assert_eq!(path.len(), 9);
}

#[test]
fn no_way_through_a_wall() {
    let m = maze(&[
        "..#..", //
        "..#..", //
        "..#..", //
    ]);
    assert!(m.astar(m.start).is_none());
    // from behind the wall the goal is reached
    let path = m.astar(at(0, 3)).unwrap().to_path();
    assert_eq!(path[0], at(0, 3));
    assert_eq!(*path.last().unwrap(), at(2, 4));
    assert_eq!(path.len(), 4);
}

#[test]
fn a_way_is_marked_and_cleared() {
    let mut m = maze(&["..#", "#..", "#.."]);
    let path = m.astar(m.start).unwrap().to_path();
    m.mark(&path);
    assert_eq!(picture(&m), vec!["S.0", "0. ", "0.G"]);
    m.clear(&path);
    assert_eq!(picture(&m), vec!["S 0", "0  ", "0 G"]);
    // a wall on the path is cleared as well
    m.clear(&vec![at(0, 2), at(0, 0), at(2, 2)]);
    assert_eq!(picture(&m), vec!["S  ", "0  ", "0 G"]);
    m.mark(&vec![]);
    assert_eq!(picture(&m), vec!["S  ", "0  ", "0 G"]);
}
