use classic::board::{Board, Move, Piece, Score, INFINITY, NEG_INFINITY, NO_MOVE};
use classic::minimax::{alphabeta, find_best_move, find_best_move_minimax, minimax};
use classic::tictactoe::{TTTBoard, TTTPiece, CELLS};
use std::cell::Cell;
use std::rc::Rc;

const X: TTTPiece = TTTPiece::X;
const O: TTTPiece = TTTPiece::O;
const E: TTTPiece = TTTPiece::E;

#[test]
fn test_easy_position() {
    // win in 1 move
    let to_win_easy_position = vec![
        TTTPiece::X,
        TTTPiece::O,
        TTTPiece::X,
        TTTPiece::X,
        TTTPiece::E,
        TTTPiece::O,
        TTTPiece::E,
        TTTPiece::E,
        TTTPiece::O,
    ];
    let test_board1: TTTBoard = TTTBoard {
        position: to_win_easy_position,
        turn: TTTPiece::X,
    };
    let answer1 = find_best_move(test_board1, 2);
    assert_eq!(answer1, 6);
}

#[test]
fn test_block_position() {
    // must block O's win
    let to_block_position = vec![
        TTTPiece::X,
        TTTPiece::E,
        TTTPiece::E,
        TTTPiece::E,
        TTTPiece::E,
        TTTPiece::O,
        TTTPiece::E,
        TTTPiece::X,
        TTTPiece::O,
    ];
    let test_board2 = TTTBoard {
        position: to_block_position,
        turn: TTTPiece::X,
    };
    let answer2 = find_best_move(test_board2, 2);
    assert_eq!(answer2, 2);
}

#[test]
fn test_hard_position() {
    // find the best move to win 2 moves
    let to_win_hard_position = vec![
        TTTPiece::X,
        TTTPiece::E,
        TTTPiece::E,
        TTTPiece::E,
        TTTPiece::E,
        TTTPiece::O,
        TTTPiece::O,
        TTTPiece::X,
        TTTPiece::E,
    ];
    let test_board3: TTTBoard = TTTBoard {
        position: to_win_hard_position,
        turn: TTTPiece::X,
    };
    let answer3 = find_best_move(test_board3, 2);
    assert_eq!(answer3, 1);
}

#[test]
fn legal_moves_are_the_empty_cells_in_order() {
    let b = TTTBoard { position: vec![X, E, O, E, E, X, O, E, E], turn: X };
    assert_eq!(b.legal_moves(), vec![1, 3, 4, 7, 8]);
    assert_eq!(b.turn(), X);
    assert!(!b.is_win());
    assert!(!b.is_draw());
}

#[test]
fn make_move_places_the_mark_and_passes_the_turn() {
    let b = TTTBoard { position: vec![E; 9], turn: X };
    let c = b.make_move(4);
    assert_eq!(c.position, vec![E, E, E, E, X, E, E, E, E]);
    assert_eq!(c.turn, O);
    assert_eq!(b.position, vec![E; 9]);
    let d = c.make_move(0);
    assert_eq!(d.position, vec![O, E, E, E, X, E, E, E, E]);
    assert_eq!(d.turn, X);
}

#[test]
fn every_line_wins() {
    let lines = [
        [0, 1, 2],
        [3, 4, 5],
        [6, 7, 8],
        [0, 3, 6],
        [1, 4, 7],
        [2, 5, 8],
        [0, 4, 8],
        [2, 4, 6],
    ];
    for line in lines.iter() {
        let mut position = vec![E; 9];
        for &c in line.iter() {
            position[c] = O;
        }
        let b = TTTBoard { position, turn: X };
        assert!(b.is_win());
        assert!(!b.is_draw());
        assert_eq!(b.evaluate(X), -1);
        assert_eq!(b.evaluate(O), 1);
    }
}

#[test]
fn full_board_without_a_line_is_a_draw() {
    let b = TTTBoard { position: vec![X, O, X, X, O, O, O, X, X], turn: O };
    assert!(!b.is_win());
    assert!(b.is_draw());
    assert_eq!(b.evaluate(X), 0);
    assert_eq!(b.evaluate(O), 0);
    assert_eq!(b.legal_moves(), Vec::<i32>::new());
}

fn board(cells: &str, turn: TTTPiece) -> TTTBoard {
    let position = cells
        .chars()
        .filter(|c| !c.is_whitespace())
        .map(|c| match c {
            'X' => X,
            'O' => O,
            _ => E,
        })
        .collect::<Vec<_>>();
    assert_eq!(position.len(), CELLS);
    TTTBoard { position, turn }
}

/// A position that counts how often the search evaluates.
#[derive(Clone)]
struct Counted {
    inner: TTTBoard,
    visits: Rc<Cell<usize>>,
}

// The model is of no use at run time: the functions over it are never called.
impl vstd::view::View for Counted {
    type V = ();
    fn view(&self) {}
}

impl Board<TTTPiece> for Counted {
    fn wf(&self) -> bool {
        true
    }
    fn to_move(_: ()) -> TTTPiece {
        E
    }
    fn moves(_: ()) -> vstd::seq::Seq<Move> {
        unreachable!()
    }
    fn after(_: (), _: Move) {}
    fn won(_: ()) -> bool {
        false
    }
    fn score(_: (), _: TTTPiece) -> Score {
        0
    }
    fn fixed_order() -> bool {
        true
    }
    fn turn(&self) -> TTTPiece {
        self.inner.turn()
    }
    fn make_move(&self, location: Move) -> Counted {
        Counted { inner: self.inner.make_move(location), visits: self.visits.clone() }
    }
    fn legal_moves(&self) -> Vec<Move> {
        self.inner.legal_moves()
    }
    fn is_win(&self) -> bool {
        self.inner.is_win()
    }
    fn evaluate(&self, player: TTTPiece) -> Score {
        self.visits.set(self.visits.get() + 1);
        self.inner.evaluate(player)
    }
}

#[test]
fn tictactoe_pieces_have_opposites() {
    assert_eq!(X.opposite(), O);
    assert_eq!(O.opposite(), X);
    assert_eq!(E.opposite(), E);
}

#[test]
fn two_in_a_row_are_completed() {
    // the mover has two marks in a row on a board that is empty otherwise
    for depth in 1..=4 {
        assert_eq!(find_best_move(board("XX. ... ...", X), depth), 2);
        assert_eq!(find_best_move(board("OO. ... ...", O), depth), 2);
        assert_eq!(find_best_move(board("X.X ... ...", X), depth), 1);
        assert_eq!(find_best_move(board(".XX ... ...", X), depth), 0);
        assert_eq!(find_best_move_minimax(board("XX. ... ...", X), depth), 2);
    }
    // at depth 0 too: the winning position is evaluated as it stands
    assert_eq!(find_best_move(board("XX. ... ...", X), 0), 2);
    assert_eq!(find_best_move(board("... ... XX.", X), 0), 8);
    assert_eq!(find_best_move(board("... ... XX.", X), 1), 8);
    assert_eq!(find_best_move(board("X.. X.. ...", X), 1), 6);
}

#[test]
fn an_earlier_move_that_wins_as_surely_is_preferred() {
    // cell 8 wins at once, but from depth 2 on cell 0 is seen to win as
    // well, by a double threat, and it comes first
    assert_eq!(find_best_move(board("... ... XX.", X), 2), 0);
    assert_eq!(find_best_move_minimax(board("... ... XX.", X), 2), 0);
    assert_eq!(find_best_move(board("X.. X.. ...", X), 2), 1);
}

#[test]
fn two_in_a_row_of_the_opponent_are_blocked() {
    for depth in 1..=4 {
        assert_eq!(find_best_move(board("X.. ..O .XO", X), depth), 2);
        assert_eq!(find_best_move_minimax(board("X.. ..O .XO", X), depth), 2);
        assert_eq!(find_best_move(board("OO. .X. ...", X), depth), 2);
        assert_eq!(find_best_move(board("X.. .X. O.O", X), depth), 7);
        assert_eq!(find_best_move(board("XX. .O. ...", O), depth), 2);
    }
}

#[test]
fn a_threat_is_not_seen_without_depth() {
    // at depth 0 only the positions after the own move are scored: all 0
    assert_eq!(find_best_move(board("X.. ..O .XO", X), 0), 1);
}

#[test]
fn a_lost_position_gets_the_first_move() {
    // O threatens cell 8, but wins by force after the block too: from depth
    // 3 on every move of X is worth a loss, and the first one is returned
    assert_eq!(find_best_move(board("XXO ..O ...", X), 2), 8);
    assert_eq!(find_best_move(board("XXO ..O ...", X), 3), 3);
    assert_eq!(find_best_move_minimax(board("XXO ..O ...", X), 3), 3);
}

#[test]
fn a_finished_game_has_no_best_move() {
    assert_eq!(find_best_move(board("XOX XOO OXX", O), 3), NO_MOVE);
    assert_eq!(find_best_move_minimax(board("XOX XOO OXX", X), 0), NO_MOVE);
}

#[test]
fn the_best_move_is_the_same_when_asked_again() {
    let positions = ["... ... ...", "X.. .O. ...", "XO. .X. ..O", "X.. ..O .XO", ".X. .O. ..."];
    for cells in positions.iter() {
        for depth in 0..=3 {
            let first = find_best_move(board(cells, X), depth);
            let second = find_best_move(board(cells, X), depth);
            assert_eq!(first, second);
            assert_eq!(find_best_move_minimax(board(cells, X), depth), first);
        }
    }
}

#[test]
fn values_of_known_positions() {
    // the empty board is a draw with best play
    assert_eq!(alphabeta(board("... ... ...", X), true, X, 9, NEG_INFINITY, INFINITY), 0);
    // X to move wins at once
    assert_eq!(minimax(board("XX. OO. ...", X), true, X, 1), 1);
    assert_eq!(alphabeta(board("XX. OO. ...", X), true, X, 1, NEG_INFINITY, INFINITY), 1);
    // O to move wins at once: a loss for X
    assert_eq!(minimax(board("XX. OO. X..", O), false, X, 1), -1);
    assert_eq!(alphabeta(board("XX. OO. X..", O), false, X, 1, NEG_INFINITY, INFINITY), -1);
    // and a win for O
    assert_eq!(minimax(board("XX. OO. X..", O), true, O, 1), 1);
    // without depth the position is scored as it stands
    assert_eq!(minimax(board("XX. OO. ...", X), true, X, 0), 0);
}

#[test]
fn alphabeta_equals_minimax_on_positions() {
    let positions = ["... ... ...", "X.. .O. ...", "XO. .X. ..O", "X.. ..O .XO", "XOX .O. ..X"];
    for cells in positions.iter() {
        for &turn in [X, O].iter() {
            for depth in 0..=4 {
                for &maximizing in [true, false].iter() {
                    for &player in [X, O].iter() {
                        let exact = minimax(board(cells, turn), maximizing, player, depth);
                        let pruned = alphabeta(
                            board(cells, turn),
                            maximizing,
                            player,
                            depth,
                            NEG_INFINITY,
                            INFINITY,
                        );
                        assert_eq!(pruned, exact);
                    }
                }
            }
        }
    }
}

#[test]
fn alphabeta_evaluates_fewer_positions_than_minimax() {
    for depth in 3..=5 {
        let pruned = Counted { inner: board("... ... ...", X), visits: Rc::new(Cell::new(0)) };
        let full = Counted { inner: board("... ... ...", X), visits: Rc::new(Cell::new(0)) };
        let by_alphabeta = alphabeta(pruned.clone(), true, X, depth, NEG_INFINITY, INFINITY);
        let by_minimax = minimax(full.clone(), true, X, depth);
        assert_eq!(by_alphabeta, by_minimax);
        assert!(pruned.visits.get() < full.visits.get());
    }
    // three plies from the empty board: 9 * 8 * 7 positions
    let full = Counted { inner: board("... ... ...", X), visits: Rc::new(Cell::new(0)) };
    assert_eq!(minimax(full.clone(), true, X, 3), 0);
    assert_eq!(full.visits.get(), 504);
}

#[test]
fn no_legal_move_is_the_mark_of_no_move() {
    for cells in ["... ... ...", "X.. .O. ...", "XOX XOO OXX", "XX. OO. ..."].iter() {
        assert!(!board(cells, X).legal_moves().contains(&NO_MOVE));
    }
    // without a legal move the answer is that mark
    assert_eq!(board("XOX XOO OXX", X).legal_moves(), Vec::<Move>::new());
    assert_eq!(find_best_move(board("XOX XOO OXX", X), 2), NO_MOVE);
    assert_eq!(find_best_move_minimax(board("XOX XOO OXX", X), 2), NO_MOVE);
    // with a legal move it is one of the moves
    let found = find_best_move(board("X.. .O. ...", X), 2);
    assert!(found != NO_MOVE);
    assert!(board("X.. .O. ...", X).legal_moves().contains(&found));
}
