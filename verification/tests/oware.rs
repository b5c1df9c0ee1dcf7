use classic::board::{Board, Move, Piece, Score, NO_MOVE};
use classic::minimax::{alphabeta, find_best_move, find_best_move_minimax, minimax};
use classic::oware::{OwareBoard, OwarePiece};

const FIRST: OwarePiece = OwarePiece::First;
const SECOND: OwarePiece = OwarePiece::Second;

fn board(position: [u8; 12], turn: OwarePiece, score1: u8, score2: u8) -> OwareBoard {
    OwareBoard { position, turn, score1, score2 }
}

fn sorted(mut moves: Vec<Move>) -> Vec<Move> {
    moves.sort();
    moves
}

#[test]
fn players_have_opposites() {
    assert_eq!(FIRST.opposite(), SECOND);
    assert_eq!(SECOND.opposite(), FIRST);
}

#[test]
fn the_opening_position() {
    let b = OwareBoard::default();
    assert_eq!(b, board([4; 12], FIRST, 0, 0));
    assert_eq!(b.turn(), FIRST);
    assert_eq!(sorted(b.legal_moves()), vec![0, 1, 2, 3, 4, 5]);
    assert!(!b.is_win());
    assert!(!b.is_draw());
    assert_eq!(b.evaluate(FIRST), 0);
    assert_eq!(b.evaluate(SECOND), 0);
}

#[test]
fn sowing_goes_round_the_board() {
    let b = OwareBoard::default();
    let c = b.make_move(2);
    assert_eq!(c, board([4, 4, 0, 5, 5, 5, 5, 4, 4, 4, 4, 4], SECOND, 0, 0));
    assert_eq!(b, OwareBoard::default());
    let d = c.make_move(10);
    assert_eq!(d, board([5, 5, 1, 5, 5, 5, 5, 4, 4, 4, 0, 5], FIRST, 0, 0));
}

#[test]
fn a_long_sowing_passes_the_house_it_came_from() {
    let b = board([14, 0, 0, 0, 0, 0, 0, 0, 0, 0, 0, 0], FIRST, 20, 14);
    let c = b.make_move(0);
    // twelve seeds go once round, the house of origin included; two more follow
    assert_eq!(c, board([1, 2, 2, 1, 1, 1, 1, 1, 1, 1, 1, 1], SECOND, 20, 14));
}

#[test]
fn seeds_are_taken_from_houses_that_held_one_or_two() {
    // the last two houses sown held 1 and 2: both are taken, 2 and 3 seeds
    let b = board([0, 0, 0, 0, 0, 2, 1, 2, 0, 0, 0, 0], FIRST, 3, 1);
    assert_eq!(b.make_move(5), board([0; 12], SECOND, 8, 1));
    // the second player takes on the first player's side
    let b = board([0, 2, 1, 0, 0, 0, 0, 0, 0, 0, 0, 3], SECOND, 0, 7);
    assert_eq!(b.make_move(11), board([1, 0, 0, 0, 0, 0, 0, 0, 0, 0, 0, 0], FIRST, 0, 12));
}

#[test]
fn taking_stops_at_the_first_house_that_does_not_qualify() {
    // house 7 held 3: nothing is taken from it, nor from house 6 behind it
    let b = board([0, 0, 0, 0, 0, 2, 1, 3, 0, 0, 0, 0], FIRST, 0, 0);
    assert_eq!(b.make_move(5), board([0, 0, 0, 0, 0, 0, 2, 4, 0, 0, 0, 0], SECOND, 0, 0));
    // house 8 was empty: nothing is taken
    let b = board([0, 0, 0, 0, 0, 3, 1, 1, 0, 0, 0, 0], FIRST, 0, 0);
    assert_eq!(b.make_move(5), board([0, 0, 0, 0, 0, 0, 2, 2, 1, 0, 0, 0], SECOND, 0, 0));
    // house 7 qualifies, house 6 held 4 and stops the taking
    let b = board([0, 0, 0, 0, 0, 2, 4, 1, 0, 0, 0, 0], FIRST, 0, 0);
    assert_eq!(b.make_move(5), board([0, 0, 0, 0, 0, 0, 5, 0, 0, 0, 0, 0], SECOND, 2, 0));
}

#[test]
fn nothing_is_taken_on_the_own_side() {
    let b = board([2, 1, 2, 0, 0, 0, 0, 0, 0, 0, 0, 0], FIRST, 0, 0);
    assert_eq!(b.make_move(0), board([0, 2, 3, 0, 0, 0, 0, 0, 0, 0, 0, 0], SECOND, 0, 0));
    // taking goes back only as far as the opponent's side reaches
    let b = board([0, 0, 0, 0, 3, 1, 1, 2, 0, 0, 0, 0], FIRST, 0, 0);
    assert_eq!(b.make_move(4), board([0, 0, 0, 0, 0, 2, 0, 0, 0, 0, 0, 0], SECOND, 5, 0));
}

#[test]
fn the_moves_are_the_own_houses_with_seeds() {
    let b = board([0, 3, 0, 0, 1, 0, 2, 0, 0, 5, 0, 1], FIRST, 0, 0);
    assert_eq!(sorted(b.legal_moves()), vec![1, 4]);
    let b = board([0, 3, 0, 0, 1, 0, 2, 0, 0, 5, 0, 1], SECOND, 0, 0);
    assert_eq!(sorted(b.legal_moves()), vec![6, 9, 11]);
    for _ in 0..20 {
        assert_eq!(sorted(b.legal_moves()), vec![6, 9, 11]);
    }
}

#[test]
fn the_moves_come_in_changing_order() {
    let b = OwareBoard::default();
    let mut orders = Vec::new();
    for _ in 0..60 {
        let moves = b.legal_moves();
        if !orders.contains(&moves) {
            orders.push(moves);
        }
    }
    // sixty draws of the 720 orders are not all alike
    assert!(orders.len() > 1);
}

#[test]
fn the_game_is_decided_by_score_or_by_want_of_moves() {
    assert!(board([1; 12], FIRST, 25, 0).is_win());
    assert!(board([1; 12], FIRST, 0, 25).is_win());
    assert!(!board([1; 12], FIRST, 24, 12).is_win());
    assert!(board([0, 0, 0, 0, 0, 0, 1, 1, 1, 1, 1, 1], FIRST, 10, 10).is_win());
    assert!(!board([0, 0, 0, 0, 0, 0, 1, 1, 1, 1, 1, 1], SECOND, 10, 10).is_win());
    assert!(board([1, 1, 1, 1, 1, 1, 0, 0, 0, 0, 0, 0], SECOND, 10, 10).is_win());
    // a position without moves counts as decided, never as a draw
    assert!(!board([0, 0, 0, 0, 0, 0, 1, 1, 1, 1, 1, 1], FIRST, 10, 10).is_draw());
    assert!(!board([1; 12], FIRST, 0, 0).is_draw());
}

#[test]
fn the_score_is_the_lead_in_seeds_taken() {
    // for the player who has just moved the lead counts as it is
    assert_eq!(board([1; 12], SECOND, 7, 3).evaluate(FIRST), 4);
    assert_eq!(board([1; 12], FIRST, 7, 3).evaluate(SECOND), -4);
    // for the player to move it is negated
    assert_eq!(board([1; 12], FIRST, 7, 3).evaluate(FIRST), -4);
    assert_eq!(board([1; 12], SECOND, 7, 3).evaluate(SECOND), 4);
    assert_eq!(board([0; 12], FIRST, 0, 255).evaluate(SECOND), 255);
    assert_eq!(board([0; 12], SECOND, 0, 255).evaluate(SECOND), -255);
    assert_eq!(board([0; 12], SECOND, 255, 0).evaluate(SECOND), 255);
}

#[test]
fn the_search_finds_the_taking_move() {
    // only house 5 takes seeds: 5 of them
    let b = board([1, 1, 1, 1, 1, 2, 1, 2, 4, 4, 4, 4], FIRST, 0, 0);
    for _ in 0..10 {
        assert_eq!(find_best_move(b.clone(), 0), 5);
        assert_eq!(find_best_move_minimax(b.clone(), 0), 5);
    }
}

#[test]
fn the_move_found_is_a_legal_move_of_the_best_value() {
    let positions = [
        OwareBoard::default(),
        board([4, 4, 0, 5, 5, 5, 5, 4, 4, 4, 4, 4], SECOND, 0, 0),
        board([1, 0, 2, 0, 3, 2, 1, 2, 0, 2, 1, 7], FIRST, 10, 9),
        board([1, 0, 2, 0, 3, 2, 1, 2, 0, 2, 1, 7], SECOND, 10, 9),
    ];
    for b in positions.iter() {
        for depth in 0..=3 {
            let mut best: Score = Score::MIN;
            for m in b.legal_moves() {
                let value = minimax(b.make_move(m), false, b.turn(), depth);
                best = best.max(value);
                assert_eq!(
                    alphabeta(b.make_move(m), false, b.turn(), depth, Score::MIN, Score::MAX),
                    value
                );
            }
            for _ in 0..5 {
                let m = find_best_move(b.clone(), depth);
                assert!(b.legal_moves().contains(&m));
                assert_eq!(minimax(b.make_move(m), false, b.turn(), depth), best);
                let m = find_best_move_minimax(b.clone(), depth);
                assert!(b.legal_moves().contains(&m));
                assert_eq!(minimax(b.make_move(m), false, b.turn(), depth), best);
            }
        }
    }
}

#[test]
fn no_move_is_found_without_seeds() {
    let b = board([0, 0, 0, 0, 0, 0, 1, 1, 1, 1, 1, 1], FIRST, 10, 10);
    assert_eq!(b.legal_moves(), Vec::<Move>::new());
    assert_eq!(find_best_move(b, 3), NO_MOVE);
}

#[test]
fn no_house_is_the_mark_of_no_move() {
    for _ in 0..20 {
        assert!(!OwareBoard::default().legal_moves().contains(&NO_MOVE));
    }
    let found = find_best_move(OwareBoard::default(), 1);
    assert!(found != NO_MOVE);
    assert!((0..6).contains(&found));
}
