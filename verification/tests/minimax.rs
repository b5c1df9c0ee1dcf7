use classic::board::{Board, Move, Piece, Score, INFINITY, NEG_INFINITY, NO_MOVE};
use classic::minimax::{alphabeta, find_best_move, find_best_move_minimax, minimax};
use std::cell::Cell;
use std::rc::Rc;

/// The two sides of a hand-made game.
#[derive(Clone, Copy, Debug, PartialEq, Eq)]
enum Side {
    A,
    B,
}

impl Piece for Side {
    fn other(self) -> Side {
        self.opposite()
    }
    fn opposite(&self) -> Side {
        match self {
            Side::A => Side::B,
            Side::B => Side::A,
        }
    }
}

/// A hand-made game tree: a node has a score for side `A`, and children.
/// A node without children is a draw unless it is marked as won.
#[derive(Clone, Debug)]
struct Tree {
    score: Score,
    won: bool,
    children: Vec<Tree>,
    turn: Side,
    reversed: bool,
    visits: Rc<Cell<usize>>,
}

// The model of a tree is of no use at run time: the functions over it are
// never called.
impl vstd::view::View for Tree {
    type V = ();
    fn view(&self) {}
}

impl Board<Side> for Tree {
    fn wf(&self) -> bool {
        true
    }
    fn to_move(_: ()) -> Side {
        Side::A
    }
    fn moves(_: ()) -> vstd::seq::Seq<Move> {
        unreachable!()
    }
    fn after(_: (), _: Move) {}
    fn won(_: ()) -> bool {
        false
    }
    fn score(_: (), _: Side) -> Score {
        0
    }
    fn fixed_order() -> bool {
        true
    }
    fn turn(&self) -> Side {
        self.turn
    }
    fn make_move(&self, location: Move) -> Tree {
        let mut child = self.children[location as usize].clone();
        child.turn = self.turn.opposite();
        child.reversed = self.reversed;
        child.visits = self.visits.clone();
        child
    }
    fn legal_moves(&self) -> Vec<Move> {
        let n = self.children.len() as Move;
        if self.reversed {
            (0..n).rev().collect()
        } else {
            (0..n).collect()
        }
    }
    fn is_win(&self) -> bool {
        self.won
    }
    fn evaluate(&self, player: Side) -> Score {
        self.visits.set(self.visits.get() + 1);
        if player == Side::A {
            self.score
        } else {
            -self.score
        }
    }
}

fn leaf(score: Score) -> Tree {
    node(score, vec![])
}

fn node(score: Score, children: Vec<Tree>) -> Tree {
    Tree {
        score,
        won: false,
        children,
        turn: Side::A,
        reversed: false,
        visits: Rc::new(Cell::new(0)),
    }
}

fn won(score: Score, children: Vec<Tree>) -> Tree {
    let mut t = node(score, children);
    t.won = true;
    t
}

fn reversed(t: &Tree) -> Tree {
    let mut r = t.clone();
    r.reversed = true;
    r
}

fn counted(t: &Tree) -> (Tree, Rc<Cell<usize>>) {
    let mut c = t.clone();
    c.visits = Rc::new(Cell::new(0));
    let counter = c.visits.clone();
    (c, counter)
}

/// A tree made from a seed: up to `depth` plies, up to three moves a node,
/// scores from -6 to 6.
fn grown(seed: &mut u64, depth: u32) -> Tree {
    *seed = seed.wrapping_mul(6364136223846793005).wrapping_add(1442695040888963407);
    let score = ((*seed >> 33) % 13) as Score - 6;
    *seed = seed.wrapping_mul(6364136223846793005).wrapping_add(1442695040888963407);
    let width = if depth == 0 { 0 } else { (*seed >> 33) % 4 };
    let mut children = Vec::new();
    for _ in 0..width {
        children.push(grown(seed, depth - 1));
    }
    node(score, children)
}

/// The minimax value, computed here in the plainest way.
fn plain_value(t: &Tree, maximizing: bool, depth: i32) -> Score {
    if t.won || t.children.is_empty() || depth == 0 {
        return t.score;
    }
    let values = t.children.iter().map(|c| plain_value(c, !maximizing, depth - 1));
    if maximizing {
        values.max().unwrap()
    } else {
        values.min().unwrap()
    }
}

fn sample() -> Tree {
    node(
        0,
        vec![
            node(1, vec![leaf(3), leaf(5)]),
            node(-1, vec![leaf(2), leaf(9)]),
            node(4, vec![leaf(0), leaf(7)]),
        ],
    )
}

#[test]
fn minimax_of_a_small_tree() {
    let t = sample();
    // max( min(3, 5), min(2, 9), min(0, 7) ) = 3
    assert_eq!(minimax(t.clone(), true, Side::A, 2), 3);
    // min( max(3, 5), max(2, 9), max(0, 7) ) = 5
    assert_eq!(minimax(t.clone(), false, Side::A, 2), 5);
    // one ply: the scores of the children themselves
    assert_eq!(minimax(t.clone(), true, Side::A, 1), 4);
    assert_eq!(minimax(t.clone(), false, Side::A, 1), -1);
    // no depth left: the score of the position itself
    assert_eq!(minimax(t.clone(), true, Side::A, 0), 0);
    // more depth than the tree has
    assert_eq!(minimax(t, true, Side::A, 7), 3);
}

#[test]
fn alphabeta_of_a_small_tree() {
    let t = sample();
    assert_eq!(alphabeta(t.clone(), true, Side::A, 2, NEG_INFINITY, INFINITY), 3);
    assert_eq!(alphabeta(t.clone(), false, Side::A, 2, NEG_INFINITY, INFINITY), 5);
    assert_eq!(alphabeta(t.clone(), true, Side::A, 1, NEG_INFINITY, INFINITY), 4);
    assert_eq!(alphabeta(t.clone(), false, Side::A, 1, NEG_INFINITY, INFINITY), -1);
    assert_eq!(alphabeta(t.clone(), true, Side::A, 0, NEG_INFINITY, INFINITY), 0);
    assert_eq!(alphabeta(t, true, Side::A, 7, NEG_INFINITY, INFINITY), 3);
}

#[test]
fn the_original_player_is_kept_through_the_search() {
    let t = sample();
    // for side B every score is negated, whoever moves at the node
    // max( min(-3, -5), min(-2, -9), min(0, -7) ) = -5
    assert_eq!(minimax(t.clone(), true, Side::B, 2), -5);
    assert_eq!(alphabeta(t.clone(), true, Side::B, 2, NEG_INFINITY, INFINITY), -5);
    // min( max(-3, -5), max(-2, -9), max(0, -7) ) = -3
    assert_eq!(minimax(t.clone(), false, Side::B, 2), -3);
    assert_eq!(alphabeta(t, false, Side::B, 2, NEG_INFINITY, INFINITY), -3);
}

#[test]
fn a_decided_position_is_not_searched() {
    let t = won(8, vec![leaf(1), leaf(2)]);
    assert_eq!(minimax(t.clone(), true, Side::A, 3), 8);
    assert_eq!(minimax(t.clone(), false, Side::A, 3), 8);
    assert_eq!(alphabeta(t.clone(), true, Side::A, 3, NEG_INFINITY, INFINITY), 8);
    assert_eq!(alphabeta(t.clone(), false, Side::A, 3, -1, 1), 8);
    assert!(t.is_win());
    assert!(!t.is_draw());
}

#[test]
fn a_position_without_moves_is_a_draw_and_is_evaluated() {
    let t = leaf(-4);
    assert!(t.is_draw());
    assert_eq!(minimax(t.clone(), true, Side::A, 5), -4);
    assert_eq!(alphabeta(t, true, Side::A, 5, NEG_INFINITY, INFINITY), -4);
}

#[test]
fn alphabeta_equals_minimax_whatever_the_order() {
    let mut seed = 2024;
    for _ in 0..60 {
        let t = grown(&mut seed, 4);
        let r = reversed(&t);
        for depth in 0..=5 {
            for &maximizing in [true, false].iter() {
                let exact = plain_value(&t, maximizing, depth);
                assert_eq!(minimax(t.clone(), maximizing, Side::A, depth), exact);
                assert_eq!(minimax(r.clone(), maximizing, Side::A, depth), exact);
                assert_eq!(
                    alphabeta(t.clone(), maximizing, Side::A, depth, NEG_INFINITY, INFINITY),
                    exact
                );
                assert_eq!(
                    alphabeta(r.clone(), maximizing, Side::A, depth, NEG_INFINITY, INFINITY),
                    exact
                );
            }
        }
    }
}

#[test]
fn alphabeta_answers_within_its_window() {
    let mut seed = 77;
    for _ in 0..40 {
        let t = grown(&mut seed, 3);
        for &tree in [&t, &reversed(&t)].iter() {
            for &maximizing in [true, false].iter() {
                let exact = plain_value(tree, maximizing, 3);
                for alpha in -7..=7 {
                    for beta in -7..=7 {
                        let value = alphabeta(tree.clone(), maximizing, Side::A, 3, alpha, beta);
                        if exact <= alpha {
                            assert!(value <= alpha);
                        }
                        if exact >= beta {
                            assert!(value >= beta);
                        }
                        if alpha < exact && exact < beta {
                            assert_eq!(value, exact);
                        }
                    }
                }
            }
        }
    }
}

#[test]
fn a_narrow_window_gives_a_bound() {
    let t = sample();
    // the exact value is 3: below a window from 4 to 6 the answer is its lower end
    assert_eq!(alphabeta(t.clone(), true, Side::A, 2, 4, 6), 4);
    // above a window from 0 to 2 the search stops at the first move with
    // the upper end
    assert_eq!(alphabeta(t.clone(), true, Side::A, 2, 0, 2), 2);
    // inside the window the answer is exact
    assert_eq!(alphabeta(t, true, Side::A, 2, 2, 4), 3);
}

#[test]
fn alphabeta_skips_what_cannot_matter() {
    let t = sample();
    let (a, seen_by_alphabeta) = counted(&t);
    let (m, seen_by_minimax) = counted(&t);
    assert_eq!(alphabeta(a, true, Side::A, 2, NEG_INFINITY, INFINITY), 3);
    assert_eq!(minimax(m, true, Side::A, 2), 3);
    assert_eq!(seen_by_minimax.get(), 6);
    // after 3 and 5, the leaf 2 rules out the second move, and 0 the third
    assert_eq!(seen_by_alphabeta.get(), 4);
}

#[test]
fn alphabeta_skips_nothing_when_the_worst_comes_first() {
    // each move is better than those before it, and each reply worse
    let t = node(
        0,
        vec![
            node(0, vec![leaf(2), leaf(1)]),
            node(0, vec![leaf(4), leaf(3)]),
            node(0, vec![leaf(6), leaf(5)]),
        ],
    );
    let (a, seen_by_alphabeta) = counted(&t);
    let (m, seen_by_minimax) = counted(&t);
    assert_eq!(alphabeta(a, true, Side::A, 2, NEG_INFINITY, INFINITY), 5);
    assert_eq!(minimax(m, true, Side::A, 2), 5);
    assert_eq!(seen_by_minimax.get(), 6);
    assert_eq!(seen_by_alphabeta.get(), 6);
}

#[test]
fn three_plies_in_the_worst_order_are_searched_in_full() {
    let pair = |a, b| node(0, vec![leaf(a), leaf(b)]);
    let t = node(
        0,
        vec![node(0, vec![pair(1, 3), pair(2, 4)]), node(0, vec![pair(5, 7), pair(6, 8)])],
    );
    let (a, seen_by_alphabeta) = counted(&t);
    let (m, seen_by_minimax) = counted(&t);
    assert_eq!(alphabeta(a, true, Side::A, 3, NEG_INFINITY, INFINITY), 7);
    assert_eq!(minimax(m, true, Side::A, 3), 7);
    assert_eq!(seen_by_minimax.get(), 8);
    assert_eq!(seen_by_alphabeta.get(), 8);
    // in the opposite order of moves part of the tree is skipped
    let (a, seen_by_alphabeta) = counted(&reversed(&t));
    assert_eq!(alphabeta(a, true, Side::A, 3, NEG_INFINITY, INFINITY), 7);
    assert_eq!(seen_by_alphabeta.get(), 6);
}

#[test]
fn alphabeta_never_evaluates_more_than_minimax() {
    let mut seed = 99;
    for _ in 0..60 {
        let t = grown(&mut seed, 4);
        for depth in 0..=4 {
            for &maximizing in [true, false].iter() {
                let (a, seen_by_alphabeta) = counted(&t);
                let (m, seen_by_minimax) = counted(&t);
                let pruned = alphabeta(a, maximizing, Side::A, depth, NEG_INFINITY, INFINITY);
                let full = minimax(m, maximizing, Side::A, depth);
                assert_eq!(pruned, full);
                assert!(seen_by_alphabeta.get() <= seen_by_minimax.get());
            }
        }
    }
}

#[test]
fn the_drivers_pick_the_best_move() {
    let t = sample();
    // behind each move the opponent replies: the moves are worth 3, 2 and 0
    assert_eq!(find_best_move(t.clone(), 1), 0);
    assert_eq!(find_best_move_minimax(t.clone(), 1), 0);
    // at depth 0 each child is evaluated by itself: 1, -1 and 4
    assert_eq!(find_best_move(t.clone(), 0), 2);
    assert_eq!(find_best_move_minimax(t.clone(), 0), 2);
    // for the other order of the moves the answer is the same move
    assert_eq!(find_best_move(reversed(&t), 1), 0);
    assert_eq!(find_best_move_minimax(reversed(&t), 0), 2);
}

#[test]
fn depth_zero_evaluates_each_child_once() {
    let (t, seen) = counted(&sample());
    assert_eq!(find_best_move(t, 0), 2);
    assert_eq!(seen.get(), 3);
    let (t, seen) = counted(&sample());
    assert_eq!(find_best_move_minimax(t, 0), 2);
    assert_eq!(seen.get(), 3);
}

#[test]
fn the_first_of_equal_moves_is_picked() {
    let t = node(0, vec![leaf(1), leaf(7), leaf(7), leaf(3), leaf(7)]);
    assert_eq!(find_best_move(t.clone(), 2), 1);
    assert_eq!(find_best_move_minimax(t.clone(), 2), 1);
    // in the reversed order of moves the first of the best is the last
    assert_eq!(find_best_move(reversed(&t), 2), 4);
    assert_eq!(find_best_move_minimax(reversed(&t), 2), 4);
}

#[test]
fn the_drivers_score_for_the_player_to_move() {
    let mut t = node(0, vec![leaf(1), leaf(7), leaf(-3)]);
    t.turn = Side::B;
    // side B sees the scores negated: -1, -7 and 3
    assert_eq!(find_best_move(t.clone(), 2), 2);
    assert_eq!(find_best_move_minimax(t, 2), 2);
}

#[test]
fn no_move_is_found_where_there_is_none() {
    assert_eq!(NO_MOVE, -1);
    assert_eq!(find_best_move(leaf(5), 3), NO_MOVE);
    assert_eq!(find_best_move_minimax(leaf(5), 3), NO_MOVE);
}

#[test]
fn no_move_is_found_where_none_is_worth_more_than_the_least() {
    let t = node(0, vec![leaf(NEG_INFINITY), leaf(NEG_INFINITY)]);
    assert_eq!(find_best_move(t.clone(), 0), NO_MOVE);
    assert_eq!(find_best_move_minimax(t, 0), NO_MOVE);
    let t = node(0, vec![leaf(NEG_INFINITY), leaf(NEG_INFINITY + 1)]);
    assert_eq!(find_best_move(t.clone(), 0), 1);
    assert_eq!(find_best_move_minimax(t, 0), 1);
}

#[test]
fn the_extreme_scores_are_those_of_the_type() {
    assert_eq!(NEG_INFINITY, i64::MIN);
    assert_eq!(INFINITY, i64::MAX);
    let t = node(0, vec![leaf(INFINITY), leaf(NEG_INFINITY)]);
    assert_eq!(minimax(t.clone(), true, Side::A, 1), INFINITY);
    assert_eq!(minimax(t.clone(), false, Side::A, 1), NEG_INFINITY);
    assert_eq!(alphabeta(t.clone(), true, Side::A, 1, NEG_INFINITY, INFINITY), INFINITY);
    assert_eq!(alphabeta(t, false, Side::A, 1, NEG_INFINITY, INFINITY), NEG_INFINITY);
}

#[test]
fn the_drivers_agree_on_grown_trees() {
    let mut seed = 5;
    for _ in 0..60 {
        let t = grown(&mut seed, 4);
        for depth in 0..=4 {
            let by_alphabeta = find_best_move(t.clone(), depth);
            let by_minimax = find_best_move_minimax(t.clone(), depth);
            assert_eq!(by_alphabeta, by_minimax);
            // asked again, the answer is the same
            assert_eq!(find_best_move(t.clone(), depth), by_alphabeta);
            if t.children.is_empty() {
                assert_eq!(by_alphabeta, NO_MOVE);
            } else {
                let values: Vec<Score> =
                    t.children.iter().map(|c| plain_value(c, false, depth)).collect();
                let best = *values.iter().max().unwrap();
                let first = values.iter().position(|&v| v == best).unwrap();
                assert_eq!(by_alphabeta, first as Move);
            }
        }
    }
}
