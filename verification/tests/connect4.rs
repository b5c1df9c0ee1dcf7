use classic::board::{Board, Piece, NO_MOVE};
use classic::connect4::{
    generate_segments, C4Board, C4Column, C4Piece, NUM_COLS, NUM_ROWS, SEGMENT_LENGTH,
};
use classic::minimax::{find_best_move, find_best_move_minimax};

const B: C4Piece = C4Piece::B;
const R: C4Piece = C4Piece::R;
const E: C4Piece = C4Piece::E;

/// A board with the given pieces in each column, the lowest first.
fn board(columns: [&str; 7], turn: C4Piece) -> C4Board {
    let mut position = Vec::new();
    for pieces in columns.iter() {
        let mut column = C4Column::new(NUM_ROWS as usize);
        for c in pieces.chars() {
            column.push(if c == 'B' { B } else { R });
        }
        position.push(column);
    }
    C4Board::new(Some(position), turn)
}

#[test]
fn segments_of_a_tiny_board() {
    assert_eq!(
        generate_segments(2, 2, 2),
        vec![
            vec![(0, 0), (0, 1)],
            vec![(1, 0), (1, 1)],
            vec![(0, 0), (1, 0)],
            vec![(0, 1), (1, 1)],
            vec![(0, 0), (1, 1)],
            vec![(0, 1), (1, 0)],
        ]
    );
    assert_eq!(
        generate_segments(3, 1, 1),
        vec![
            vec![(0, 0)],
            vec![(1, 0)],
            vec![(2, 0)],
            vec![(0, 0)],
            vec![(1, 0)],
            vec![(2, 0)],
            vec![(0, 0)],
            vec![(1, 0)],
            vec![(2, 0)],
            vec![(0, 0)],
            vec![(1, 0)],
            vec![(2, 0)],
        ]
    );
}

#[test]
fn segments_of_the_board() {
    let segments = generate_segments(NUM_COLS, NUM_ROWS, SEGMENT_LENGTH);
    assert_eq!(segments.len(), 69);
    assert_eq!(segments[0], vec![(0, 0), (0, 1), (0, 2), (0, 3)]);
    assert_eq!(segments[1], vec![(0, 1), (0, 2), (0, 3), (0, 4)]);
    assert_eq!(segments[20], vec![(6, 2), (6, 3), (6, 4), (6, 5)]);
    assert_eq!(segments[21], vec![(0, 0), (1, 0), (2, 0), (3, 0)]);
    assert_eq!(segments[44], vec![(3, 5), (4, 5), (5, 5), (6, 5)]);
    assert_eq!(segments[45], vec![(0, 0), (1, 1), (2, 2), (3, 3)]);
    assert_eq!(segments[56], vec![(3, 2), (4, 3), (5, 4), (6, 5)]);
    assert_eq!(segments[57], vec![(0, 3), (1, 2), (2, 1), (3, 0)]);
    assert_eq!(segments[68], vec![(3, 5), (4, 4), (5, 3), (6, 2)]);
    for segment in segments.iter() {
        assert_eq!(segment.len(), 4);
        for &(c, r) in segment.iter() {
            assert!(c < NUM_COLS && r < NUM_ROWS);
        }
    }
    assert_eq!(C4Board::new(None, B).segments, segments);
}

#[test]
fn a_column_fills_from_the_bottom() {
    let mut column = C4Column::new(NUM_ROWS as usize);
    assert_eq!(column.0, Vec::<C4Piece>::new());
    assert!(!column.full());
    assert_eq!(column.index(0), E);
    column.push(B);
    column.push(R);
    assert_eq!(column.0, vec![B, R]);
    assert_eq!(column.index(0), B);
    assert_eq!(column.index(1), R);
    assert_eq!(column.index(2), E);
    assert_eq!(column.index(100), E);
    assert!(!column.full());
    for _ in 0..4 {
        column.push(B);
    }
    assert!(column.full());
    assert_eq!(column.0.len(), 6);
}

#[test]
fn connect4_pieces_have_opposites() {
    assert_eq!(B.opposite(), R);
    assert_eq!(R.opposite(), B);
    assert_eq!(E.opposite(), E);
}

#[test]
fn the_empty_board() {
    let b = C4Board::new(None, B);
    assert_eq!(b.position.len(), 7);
    for column in b.position.iter() {
        assert_eq!(column.0, Vec::<C4Piece>::new());
    }
    assert_eq!(b.turn(), B);
    assert_eq!(b.legal_moves(), vec![0, 1, 2, 3, 4, 5, 6]);
    assert!(!b.is_win());
    assert!(!b.is_draw());
    assert_eq!(b.evaluate(B), 0);
    assert_eq!(b.evaluate(R), 0);
}

#[test]
fn a_move_drops_a_piece_and_passes_the_turn() {
    let b = C4Board::new(None, R);
    let c = b.make_move(3);
    assert_eq!(c.position[3].0, vec![R]);
    assert_eq!(c.turn, B);
    assert_eq!(c.segments, b.segments);
    assert_eq!(b.position[3].0, Vec::<C4Piece>::new());
    let d = c.make_move(3).make_move(0);
    assert_eq!(d.position[3].0, vec![R, B]);
    assert_eq!(d.position[0].0, vec![R]);
    assert_eq!(d.turn, B);
    for col in [1, 2, 4, 5, 6].iter() {
        assert_eq!(d.position[*col as usize].0, Vec::<C4Piece>::new());
    }
}

#[test]
fn a_full_column_takes_no_move() {
    let b = board(["BRBRBR", "", "", "", "", "", "RBRBRB"], B);
    assert_eq!(b.legal_moves(), vec![1, 2, 3, 4, 5]);
}

#[test]
fn counting_a_segment() {
    let b = board(["BB", "R", "", "B", "", "", ""], R);
    assert_eq!(b.count_segment(&vec![(0, 0), (0, 1), (0, 2), (0, 3)]), (2, 0));
    assert_eq!(b.count_segment(&vec![(0, 0), (1, 0), (2, 0), (3, 0)]), (2, 1));
    assert_eq!(b.count_segment(&vec![(1, 0), (1, 1), (1, 2), (1, 3)]), (0, 1));
    assert_eq!(b.count_segment(&vec![(4, 0), (4, 1), (5, 0), (6, 5)]), (0, 0));
    assert_eq!(b.count_segment(&vec![]), (0, 0));
}

#[test]
fn scoring_a_segment() {
    let b = board(["BBBB", "RRR", "RR", "R", "B", "BR", ""], B);
    let column = |c: u8| vec![(c, 0), (c, 1), (c, 2), (c, 3)];
    assert_eq!(b.evaluate_segment(&column(0), B), 1000000);
    assert_eq!(b.evaluate_segment(&column(0), R), -1000000);
    assert_eq!(b.evaluate_segment(&column(1), R), 100);
    assert_eq!(b.evaluate_segment(&column(1), B), -100);
    assert_eq!(b.evaluate_segment(&column(2), R), 1);
    assert_eq!(b.evaluate_segment(&column(2), B), -1);
    assert_eq!(b.evaluate_segment(&column(3), R), 0);
    assert_eq!(b.evaluate_segment(&column(4), B), 0);
    assert_eq!(b.evaluate_segment(&column(5), B), 0);
    assert_eq!(b.evaluate_segment(&column(5), R), 0);
    assert_eq!(b.evaluate_segment(&column(6), B), 0);
    assert_eq!(b.evaluate_segment(&column(6), R), 0);
}

#[test]
fn scores_of_positions() {
    // two in a column: one segment holds both
    let two = board(["BB", "", "", "", "", "", ""], R);
    assert_eq!(two.evaluate(B), 1);
    assert_eq!(two.evaluate(R), -1);
    assert!(!two.is_win());
    // three in a column: 100 for the lowest segment, 1 for the next
    let three = board(["BBB", "", "", "", "", "", ""], R);
    assert_eq!(three.evaluate(B), 101);
    assert_eq!(three.evaluate(R), -101);
    assert!(!three.is_win());
    // four in a column
    let four = board(["BBBB", "", "", "", "", "", ""], R);
    assert_eq!(four.evaluate(B), 1000101);
    assert_eq!(four.evaluate(R), -1000101);
    assert!(four.is_win());
    // a piece of the other colour on top takes the upper segments away
    let capped = board(["BBR", "", "", "", "", "", ""], B);
    assert_eq!(capped.evaluate(B), 0);
    assert_eq!(capped.evaluate(R), 0);
}

#[test]
fn four_in_a_row_win_in_every_direction() {
    assert!(board(["RRRR", "", "", "", "", "", ""], B).is_win());
    assert!(board(["", "", "", "B", "B", "B", "B"], R).is_win());
    assert!(board(["R", "BR", "BBR", "BBBR", "", "", ""], B).is_win());
    assert!(board(["", "", "", "BBBR", "BBR", "BR", "R"], B).is_win());
    assert!(!board(["RRR", "", "", "", "", "", ""], B).is_win());
    assert!(!board(["RRBR", "B", "B", "B", "", "R", "R"], B).is_win());
}

#[test]
fn a_full_board_without_four_is_a_draw() {
    let b = board(
        ["BBRRBB", "RRBBRR", "BBRRBB", "RRBBRR", "BBRRBB", "RRBBRR", "BBRRBB"],
        B,
    );
    assert_eq!(b.legal_moves(), Vec::<i32>::new());
    assert!(!b.is_win());
    assert!(b.is_draw());
}

#[test]
fn the_fourth_piece_is_played() {
    let b = board(["", "", "BBB", "RRR", "", "", ""], B);
    assert_eq!(find_best_move(b.clone(), 1), 2);
    assert_eq!(find_best_move(b.clone(), 2), 2);
    assert_eq!(find_best_move_minimax(b, 2), 2);
}

#[test]
fn three_in_a_row_of_the_opponent_are_blocked() {
    let b = board(["B", "B", "", "", "RRR", "", ""], B);
    assert_eq!(find_best_move(b.clone(), 1), 4);
    assert_eq!(find_best_move(b.clone(), 2), 4);
    assert_eq!(find_best_move(b.clone(), 3), 4);
    assert_eq!(find_best_move_minimax(b, 2), 4);
}

#[test]
fn both_drivers_agree() {
    let b = board(["BR", "RB", "B", "", "R", "", ""], B);
    for depth in 0..=3 {
        assert_eq!(find_best_move(b.clone(), depth), find_best_move_minimax(b.clone(), depth));
    }
}

#[test]
fn no_column_is_the_mark_of_no_move() {
    let b = board(["BR", "RB", "B", "", "R", "", "BRBRBR"], B);
    assert!(!b.legal_moves().contains(&NO_MOVE));
    let found = find_best_move(b.clone(), 1);
    assert!(found != NO_MOVE);
    assert!(b.legal_moves().contains(&found));
    let full = board(
        ["BBRRBB", "RRBBRR", "BBRRBB", "RRBBRR", "BBRRBB", "RRBBRR", "BBRRBB"],
        B,
    );
    assert_eq!(find_best_move(full, 2), NO_MOVE);
}
