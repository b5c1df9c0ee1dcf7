//! Oware, a sowing game, as a position for the game-tree search.

use crate::board::{lemma_picked, picked, Board, Move, Piece, Score, NO_MOVE};
use rand::seq::SliceRandom;
use vstd::prelude::*;

verus! {

/// The two players.
#[derive(Clone, Copy, Debug, PartialEq, Eq, Structural)]
pub enum OwarePiece {
    First,
    Second,
}

impl Piece for OwarePiece {
    open spec fn other(self) -> OwarePiece {
        match self {
            OwarePiece::First => OwarePiece::Second,
            OwarePiece::Second => OwarePiece::First,
        }
    }

    fn opposite(&self) -> OwarePiece {
        match self {
            OwarePiece::First => OwarePiece::Second,
            OwarePiece::Second => OwarePiece::First,
        }
    }
}

/// An Oware position: the seeds in the twelve houses, the player to move,
/// and the seeds that each player has captured. Houses 0 to 5 are the first
/// player's, houses 6 to 11 the second player's.
#[derive(Clone, Debug, PartialEq, Eq)]
pub struct OwareBoard {
    pub position: [u8; 12],
    pub turn: OwarePiece,
    pub score1: u8,
    pub score2: u8,
}

/// The mathematical model of an Oware position.
pub struct OwareState {
    pub houses: Seq<int>,
    pub turn: OwarePiece,
    pub score1: int,
    pub score2: int,
}

impl View for OwareBoard {
    type V = OwareState;

    open spec fn view(&self) -> OwareState {
        OwareState {
            houses: Seq::new(12, |h: int| self.position@[h] as int),
            turn: self.turn,
            score1: self.score1 as int,
            score2: self.score2 as int,
        }
    }
}

/// The number of seeds in the twelve houses.
pub open spec fn seeds(houses: Seq<int>) -> int {
    houses[0] + houses[1] + houses[2] + houses[3] + houses[4] + houses[5] + houses[6] + houses[7]
        + houses[8] + houses[9] + houses[10] + houses[11]
}

/// The number of seeds in the game: in the houses and captured.
pub open spec fn all_seeds(s: OwareState) -> int {
    seeds(s.houses) + s.score1 + s.score2
}

/// The houses after house `loc` is emptied and `n` seeds are sown, one into
/// each house that follows, round the board.
pub open spec fn sown(houses: Seq<int>, loc: int, n: int) -> Seq<int>
    decreases n,
{
    if n <= 0 {
        houses.update(loc, 0)
    } else {
        let before = sown(houses, loc, n - 1);
        let h = (loc + n) % 12;
        before.update(h, before[h] + 1)
    }
}

/// Whether `mover` captures from house `h`: it is on the opponent's side.
pub open spec fn takes_from(mover: OwarePiece, h: int) -> bool {
    (mover == OwarePiece::First && h >= 6) || (mover == OwarePiece::Second && h < 6)
}

/// The position after `mover` has captured, going back from the `i`-th house
/// sown from `loc`: each house on the opponent's side that held one or two
/// seeds before the move, `held`, is emptied into the mover's score, until
/// one house is not.
pub open spec fn captured(
    s: OwareState,
    held: Seq<int>,
    loc: int,
    i: int,
    mover: OwarePiece,
) -> OwareState
    decreases i,
{
    if i <= 0 {
        s
    } else {
        let h = (loc + i) % 12;
        if held[h] == 0 || held[h] > 2 || !takes_from(mover, h) {
            s
        } else if mover == OwarePiece::First {
            captured(
                OwareState { houses: s.houses.update(h, 0), score1: s.score1 + s.houses[h], ..s },
                held,
                loc,
                i - 1,
                mover,
            )
        } else {
            captured(
                OwareState { houses: s.houses.update(h, 0), score2: s.score2 + s.houses[h], ..s },
                held,
                loc,
                i - 1,
                mover,
            )
        }
    }
}

/// The houses with seeds on the side of the player to move, by ascending
/// house.
pub open spec fn own_houses(s: OwareState) -> Seq<Move> {
    match s.turn {
        OwarePiece::First => picked(0, 6, |h: int| s.houses[h] > 0),
        OwarePiece::Second => picked(6, 12, |h: int| s.houses[h] > 0),
    }
}

/// Puts the moves into a random order.
///
/// Calls `shuffle` of `rand::seq::SliceRandom` with the generator that
/// `rand::thread_rng` returns. The contract claims what the shuffle does
/// whatever the generator yields: it only swaps elements, so the moves stay
/// the same, each as often as before. `thread_rng` panics where the system
/// cannot seed the generator, which no argument decides.
#[verifier::external_body]
fn shuffle(moves: &mut Vec<Move>)
    ensures
        final(moves)@.to_multiset() == old(moves)@.to_multiset(),
{
    let mut rng = rand::thread_rng();
    moves.shuffle(&mut rng);
}

impl Default for OwareBoard {
    /// The opening position: four seeds in each house, the first player to
    /// move, nothing captured.
    fn default() -> (board: OwareBoard)
        ensures
            board.wf(),
            board@.houses == Seq::new(12, |h: int| 4int),
            board@.turn == OwarePiece::First,
            board@.score1 == 0,
            board@.score2 == 0,
    {
        let board = OwareBoard { position: [4u8;12], turn: OwarePiece::First, score1: 0, score2: 0 };
        assert(board@.houses == Seq::new(12, |h: int| 4int));
        board
    }
}

impl Board<OwarePiece> for OwareBoard {
    open spec fn wf(&self) -> bool {
        all_seeds(self@) <= u8::MAX
    }

    open spec fn to_move(s: OwareState) -> OwarePiece {
        s.turn
    }

    open spec fn moves(s: OwareState) -> Seq<Move> {
        own_houses(s)
    }

    open spec fn after(s: OwareState, m: Move) -> OwareState {
        captured(
            OwareState {
                houses: sown(s.houses, m as int, s.houses[m as int]),
                turn: s.turn.other(),
                ..s
            },
            s.houses,
            m as int,
            s.houses[m as int],
            s.turn,
        )
    }

    open spec fn won(s: OwareState) -> bool {
        s.score1 > 24 || s.score2 > 24 || own_houses(s).len() == 0
    }

    open spec fn score(s: OwareState, player: OwarePiece) -> Score {
        let lead = if player == OwarePiece::Second {
            s.score2 - s.score1
        } else {
            s.score1 - s.score2
        };
        if s.turn == player {
            (-lead) as Score
        } else {
            lead as Score
        }
    }

    open spec fn fixed_order() -> bool {
        false
    }

    fn turn(&self) -> OwarePiece {
        self.turn
    }

    fn make_move(&self, loc: Move) -> OwareBoard {
        proof {
            lemma_picked(0, 6, |h: int| self@.houses[h] > 0);
            lemma_picked(6, 12, |h: int| self@.houses[h] > 0);
        }
        let n_to_sow = self.position[loc as usize] as usize;  // num seeds to sow
        let mut b = OwareBoard {
            position: self.position,
            turn: self.turn.opposite(),
            score1: self.score1,
            score2: self.score2,
        };
        b.position[loc as usize] = 0;
        assert(b@.houses == sown(self@.houses, loc as int, 0));
        let mut i: usize = 0;
        while i < n_to_sow
            invariant
                0 <= loc < 12,
                i <= n_to_sow,
                n_to_sow == self@.houses[loc as int],
                self.wf(),
                b.turn == self.turn.other(),
                b.score1 == self.score1,
                b.score2 == self.score2,
                b@.houses == sown(self@.houses, loc as int, i as int),
                seeds(b@.houses) == seeds(self@.houses) - n_to_sow + i,
            decreases n_to_sow - i,
        {
            // sow
            let h = (i + loc as usize + 1) % 12;
            let ghost before = b@.houses;
            b.position[h] += 1;
            i += 1;
            assert(b@.houses == before.update(h as int, before[h as int] + 1));
        }
        let ghost start = b@;
        let mut i: usize = n_to_sow;
        while i > 0
            invariant
                0 <= loc < 12,
                i <= n_to_sow <= u8::MAX,
                self.wf(),
                all_seeds(b@) == all_seeds(self@),
                b@.turn == self.turn.other(),
                captured(b@, self@.houses, loc as int, i as int, self.turn) == captured(
                    start,
                    self@.houses,
                    loc as int,
                    n_to_sow as int,
                    self.turn,
                ),
            ensures
                all_seeds(b@) == all_seeds(self@),
                b@ == captured(start, self@.houses, loc as int, n_to_sow as int, self.turn),
            decreases i,
        {
            // score
            let h = (i - 1 + loc as usize + 1) % 12;
            let num_before = self.position[h];
            if num_before == 0 || num_before > 2 {
                break ;
            }
            let ghost before = b@;
            if self.turn == OwarePiece::First && h >= 6 {
                b.score1 += b.position[h];
                b.position[h] = 0;
                assert(b@.houses == before.houses.update(h as int, 0));
                assert(b@ == OwareState {
                    houses: before.houses.update(h as int, 0),
                    score1: before.score1 + before.houses[h as int],
                    ..before
                });
            } else if self.turn == OwarePiece::Second && h < 6 {
                b.score2 += b.position[h];
                b.position[h] = 0;
                assert(b@.houses == before.houses.update(h as int, 0));
                assert(b@ == OwareState {
                    houses: before.houses.update(h as int, 0),
                    score2: before.score2 + before.houses[h as int],
                    ..before
                });
            } else {
                break ;
            }
            i -= 1;
        }
        b
    }

    fn legal_moves(&self) -> Vec<Move> {
        let mut moves: Vec<Move> = Vec::new();
        let first: usize = match self.turn {
            OwarePiece::First => 0,
            OwarePiece::Second => 6,
        };
        let mut x: usize = first;
        while x < first + 6
            invariant
                first == 0 || first == 6,
                first <= x <= first + 6,
                moves@ == picked(first as int, x as int, |h: int| self@.houses[h] > 0),
            decreases first + 6 - x,
        {
            if self.position[x] > 0 {
                moves.push(x as Move);
            }
            x += 1;
            assert(moves@ == picked(first as int, x as int, |h: int| self@.houses[h] > 0));
        }
        let ghost sorted = moves@;
        // randomize the order of move searching
        shuffle(&mut moves);
        proof {
            assert(!Self::fixed_order());
            lemma_picked(first as int, first + 6, |h: int| self@.houses[h] > 0);
            assert forall|k: int| 0 <= k < moves.len() implies #[trigger] moves@[k] != NO_MOVE by {
                assert(moves@.contains(moves@[k]));
                vstd::seq_lib::to_multiset_contains(moves@, moves@[k]);
                vstd::seq_lib::to_multiset_contains(sorted, moves@[k]);
            }
        }
        moves
    }

    fn is_win(&self) -> bool {
        let moves = self.legal_moves();
        proof {
            vstd::seq_lib::to_multiset_len(moves@);
            vstd::seq_lib::to_multiset_len(own_houses(self@));
        }
        self.score1 > 24 || self.score2 > 24 || moves.len() == 0
    }

    fn evaluate(&self, player: OwarePiece) -> Score {
        let mut score_diff: Score = self.score1 as Score - self.score2 as Score;
        if player == OwarePiece::Second {
            score_diff = -score_diff;
        }
        if self.turn == player {
            return -score_diff;
        } else {
            return score_diff;
        }
    }
}

/// Sowing moves seeds between the houses and loses none.
pub proof fn lemma_sown_seeds(houses: Seq<int>, loc: int, n: int)
    requires
        houses.len() == 12,
        0 <= loc < 12,
        0 <= n,
    ensures
        sown(houses, loc, n).len() == 12,
        seeds(sown(houses, loc, n)) == seeds(houses) - houses[loc] + n,
    decreases n,
{
    if n > 0 {
        lemma_sown_seeds(houses, loc, n - 1);
    }
}

/// Taking seeds moves them from the houses to a score and loses none.
pub proof fn lemma_captured_seeds(
    s: OwareState,
    held: Seq<int>,
    loc: int,
    i: int,
    mover: OwarePiece,
)
    requires
        s.houses.len() == 12,
        0 <= loc < 12,
    ensures
        captured(s, held, loc, i, mover).houses.len() == 12,
        all_seeds(captured(s, held, loc, i, mover)) == all_seeds(s),
        captured(s, held, loc, i, mover).turn == s.turn,
    decreases i,
{
    if i > 0 {
        let h = (loc + i) % 12;
        if !(held[h] == 0 || held[h] > 2 || !takes_from(mover, h)) {
            if mover == OwarePiece::First {
                lemma_captured_seeds(
                    OwareState {
                        houses: s.houses.update(h, 0),
                        score1: s.score1 + s.houses[h],
                        ..s
                    },
                    held,
                    loc,
                    i - 1,
                    mover,
                );
            } else {
                lemma_captured_seeds(
                    OwareState {
                        houses: s.houses.update(h, 0),
                        score2: s.score2 + s.houses[h],
                        ..s
                    },
                    held,
                    loc,
                    i - 1,
                    mover,
                );
            }
        }
    }
}

/// A move keeps the number of seeds in the game, and passes the turn.
pub proof fn lemma_move_keeps_seeds(s: OwareState, m: Move)
    requires
        s.houses.len() == 12,
        0 <= m < 12,
        0 <= s.houses[m as int],
    ensures
        all_seeds(OwareBoard::after(s, m)) == all_seeds(s),
        OwareBoard::after(s, m).turn == s.turn.other(),
        OwareBoard::after(s, m).houses.len() == 12,
{
    let n = s.houses[m as int];
    lemma_sown_seeds(s.houses, m as int, n);
    lemma_captured_seeds(
        OwareState { houses: sown(s.houses, m as int, n), turn: s.turn.other(), ..s },
        s.houses,
        m as int,
        n,
        s.turn,
    );
}

} // verus!
