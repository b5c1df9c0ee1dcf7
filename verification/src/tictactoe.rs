//! Tic-tac-toe as a position for the game-tree search.

use crate::board::{lemma_picked, picked, Board, Move, Piece, Score, NO_MOVE};
use crate::minimax::{
    allows_defeat, first_best, lemma_immediate_win_is_chosen, lemma_threat_is_met, reply_value,
};
use vstd::prelude::*;

verus! {

/// What a cell holds, and who moves: `X`, `O`, or nobody.
#[derive(Clone, Copy, Debug, PartialEq, Eq, Structural)]
pub enum TTTPiece {
    X,
    O,
    E,
}

impl Piece for TTTPiece {
    open spec fn other(self) -> TTTPiece {
        match self {
            TTTPiece::X => TTTPiece::O,
            TTTPiece::O => TTTPiece::X,
            TTTPiece::E => TTTPiece::E,
        }
    }

    fn opposite(&self) -> TTTPiece {
        match self {
            TTTPiece::X => TTTPiece::O,
            TTTPiece::O => TTTPiece::X,
            _ => TTTPiece::E,
        }
    }
}

/// A tic-tac-toe position: the nine cells, row by row, and the player to move.
#[derive(Clone, Debug, PartialEq, Eq)]
pub struct TTTBoard {
    pub position: Vec<TTTPiece>,
    pub turn: TTTPiece,
}

/// The mathematical model of a tic-tac-toe position.
pub struct TTTState {
    pub cells: Seq<TTTPiece>,
    pub turn: TTTPiece,
}

impl View for TTTBoard {
    type V = TTTState;

    open spec fn view(&self) -> TTTState {
        TTTState { cells: self.position@, turn: self.turn }
    }
}

/// The number of cells of the board.
pub const CELLS: usize = 9;

/// The indices of the empty cells, in ascending order.
pub open spec fn empty_cells(cells: Seq<TTTPiece>, n: int) -> Seq<Move> {
    picked(0, n, |i: int| cells[i] == TTTPiece::E)
}

/// Whether the cells `a`, `b` and `c` hold the same mark.
pub open spec fn line(cells: Seq<TTTPiece>, a: int, b: int, c: int) -> bool {
    cells[a] == cells[b] && cells[a] == cells[c] && cells[a] != TTTPiece::E
}

/// Whether a row, a column or a diagonal holds three equal marks.
pub open spec fn three_in_a_row(cells: Seq<TTTPiece>) -> bool {
    ||| line(cells, 0, 1, 2)
    ||| line(cells, 3, 4, 5)
    ||| line(cells, 6, 7, 8)
    ||| line(cells, 0, 3, 6)
    ||| line(cells, 1, 4, 7)
    ||| line(cells, 2, 5, 8)
    ||| line(cells, 0, 4, 8)
    ||| line(cells, 2, 4, 6)
}

impl Board<TTTPiece> for TTTBoard {
    open spec fn wf(&self) -> bool {
        self.position.len() == CELLS
    }

    open spec fn to_move(s: TTTState) -> TTTPiece {
        s.turn
    }

    open spec fn moves(s: TTTState) -> Seq<Move> {
        empty_cells(s.cells, s.cells.len() as int)
    }

    open spec fn after(s: TTTState, m: Move) -> TTTState {
        TTTState { cells: s.cells.update(m as int, s.turn), turn: s.turn.other() }
    }

    open spec fn won(s: TTTState) -> bool {
        three_in_a_row(s.cells)
    }

    open spec fn score(s: TTTState, player: TTTPiece) -> Score {
        if three_in_a_row(s.cells) && s.turn == player {
            -1i64
        } else if three_in_a_row(s.cells) && s.turn != player {
            1
        } else {
            0
        }
    }

    open spec fn fixed_order() -> bool {
        true
    }

    fn turn(&self) -> TTTPiece {
        self.turn
    }

    fn make_move(&self, location: Move) -> TTTBoard {
        proof {
            lemma_picked(0, CELLS as int, |i: int| self.position@[i] == TTTPiece::E);
        }
        let mut temp_position: Vec<TTTPiece> = self.position.clone();
        assert(temp_position@ == self.position@);
        temp_position[location as usize] = self.turn;
        TTTBoard { position: temp_position, turn: self.turn.opposite() }
    }

    fn legal_moves(&self) -> Vec<Move> {
        let mut list: Vec<Move> = Vec::new();
        let mut i: usize = 0;
        while i < self.position.len()
            invariant
                self.position.len() == CELLS,
                i <= self.position.len(),
                list@ == empty_cells(self.position@, i as int),
            decreases self.position.len() - i,
        {
            if self.position[i] == TTTPiece::E {
                list.push(i as Move);
            }
            i += 1;
            assert(list@ == empty_cells(self.position@, i as int));
        }
        proof {
            lemma_picked(0, CELLS as int, |i: int| self.position@[i] == TTTPiece::E);
            assert forall|k: int| 0 <= k < list.len() implies #[trigger] list@[k] != NO_MOVE by {
                assert(list@.contains(list@[k]));
            }
        }
        list
    }

    fn is_win(&self) -> bool {
        // three row, three column, and then two diagonal checks
        (self.position[0] == self.position[1] && self.position[0] == self.position[2]
            && self.position[0] != TTTPiece::E)
            || (self.position[3] == self.position[4] && self.position[3] == self.position[5]
            && self.position[3] != TTTPiece::E)
            || (self.position[6] == self.position[7] && self.position[6] == self.position[8]
            && self.position[6] != TTTPiece::E)
            || (self.position[0] == self.position[3] && self.position[0] == self.position[6]
            && self.position[0] != TTTPiece::E)
            || (self.position[1] == self.position[4] && self.position[1] == self.position[7]
            && self.position[1] != TTTPiece::E)
            || (self.position[2] == self.position[5] && self.position[2] == self.position[8]
            && self.position[2] != TTTPiece::E)
            || (self.position[0] == self.position[4] && self.position[0] == self.position[8]
            && self.position[0] != TTTPiece::E)
            || (self.position[2] == self.position[4] && self.position[2] == self.position[6]
            && self.position[2] != TTTPiece::E)
    }

    fn evaluate(&self, player: TTTPiece) -> Score {
        if self.is_win() && self.turn == player {
            return -1;
        } else if self.is_win() && self.turn != player {
            return 1;
        } else {
            return 0;
        }
    }
}

/// A move that completes a line is chosen, at any depth, unless a move that
/// is tried before it is seen to win as well.
pub proof fn lemma_completing_cell_is_chosen(s: TTTState, depth: nat, w: int)
    requires
        s.turn != TTTPiece::E,
        0 <= w < TTTBoard::moves(s).len(),
        three_in_a_row(TTTBoard::after(s, TTTBoard::moves(s)[w]).cells),
        forall|j: int|
            0 <= j < w ==> #[trigger] reply_value::<TTTBoard, TTTPiece>(
                s,
                TTTBoard::moves(s)[j],
                true,
                s.turn,
                depth,
            ) < 1,
    ensures
        first_best::<TTTBoard, TTTPiece>(s, TTTBoard::moves(s), depth) == TTTBoard::moves(s)[w],
{
    let after = TTTBoard::after(s, TTTBoard::moves(s)[w]);
    assert(TTTBoard::score(after, s.turn) == 1);
    assert forall|t: TTTState| #[trigger] TTTBoard::score(t, s.turn) <= 1 by {}
    lemma_immediate_win_is_chosen::<TTTBoard, TTTPiece>(s, TTTBoard::moves(s), depth, w);
}

/// A line that the opponent could complete at once is blocked: at a depth
/// of one or more the move chosen leaves the opponent no move that wins at
/// once, where any move avoids defeat within the depth.
pub proof fn lemma_threat_is_blocked(s: TTTState, depth: nat)
    requires
        depth >= 1,
        exists|k: int|
            0 <= k < TTTBoard::moves(s).len() && #[trigger] reply_value::<TTTBoard, TTTPiece>(
                s,
                TTTBoard::moves(s)[k],
                true,
                s.turn,
                depth,
            ) > -1,
    ensures
        TTTBoard::moves(s).contains(first_best::<TTTBoard, TTTPiece>(s, TTTBoard::moves(s), depth)),
        !allows_defeat::<TTTBoard, TTTPiece>(
            s,
            first_best::<TTTBoard, TTTPiece>(s, TTTBoard::moves(s), depth),
        ),
{
    assert forall|t: TTTState|
        TTTBoard::won(t) && TTTBoard::to_move(t) == TTTBoard::to_move(
            s,
        ) implies #[trigger] TTTBoard::score(t, TTTBoard::to_move(s)) <= -1 by {}
    let k = choose|k: int|
        0 <= k < TTTBoard::moves(s).len() && #[trigger] reply_value::<TTTBoard, TTTPiece>(
            s,
            TTTBoard::moves(s)[k],
            true,
            s.turn,
            depth,
        ) > -1;
    assert(reply_value::<TTTBoard, TTTPiece>(
        s,
        TTTBoard::moves(s)[k],
        true,
        TTTBoard::to_move(s),
        depth,
    ) > -1i64);
    lemma_threat_is_met::<TTTBoard, TTTPiece>(s, TTTBoard::moves(s), depth, -1i64);
}

/// A move by `X` or `O` takes its cell: the cell is no move any more, and
/// the other moves stay.
pub proof fn lemma_move_takes_the_cell(s: TTTState, m: Move)
    requires
        s.cells.len() <= i32::MAX,
        s.turn != TTTPiece::E,
        TTTBoard::moves(s).contains(m),
    ensures
        !TTTBoard::moves(TTTBoard::after(s, m)).contains(m),
        forall|other: Move|
            other != m ==> (#[trigger] TTTBoard::moves(TTTBoard::after(s, m)).contains(other)
                <==> TTTBoard::moves(s).contains(other)),
{
    let after = TTTBoard::after(s, m);
    lemma_picked(0, s.cells.len() as int, |i: int| s.cells[i] == TTTPiece::E);
    lemma_picked(0, after.cells.len() as int, |i: int| after.cells[i] == TTTPiece::E);
}

} // verus!
