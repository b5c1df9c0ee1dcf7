//! The position interface that every two-player game offers to the search.

use vstd::prelude::*;

verus! {

/// A move: a small identifier of one transition out of a position, such as a
/// cell or column index.
pub type Move = i32;

/// A score of a position from one player's point of view. Larger is better
/// for that player. The scale is up to each game.
pub type Score = i64;

/// The score below every other: what a maximizing search starts from.
pub const NEG_INFINITY: Score = i64::MIN;

/// The score above every other: what a minimizing search starts from.
pub const INFINITY: Score = i64::MAX;

/// What a search returns when it can recommend no move.
pub const NO_MOVE: Move = -1;

/// The identity of a player.
pub trait Piece: Copy {
    /// The player who is not `self`.
    spec fn other(self) -> Self;

    /// Returns the opponent of this player.
    fn opposite(&self) -> (p: Self)
        ensures
            p == self.other(),
    ;
}

/// A game position for two players with perfect information.
///
/// A position is an immutable value: a move produces a new position. The view
/// of a position is its mathematical model, and the rules of the game are the
/// spec functions over that model. The executable methods compute them.
pub trait Board<P: Piece>: View + Sized {
    /// The representation invariant of a position.
    spec fn wf(&self) -> bool;

    /// The player who moves next.
    spec fn to_move(s: Self::V) -> P;

    /// The moves that can be played, in the game's canonical order.
    spec fn moves(s: Self::V) -> Seq<Move>;

    /// The position after move `m`. Meaningful where `m` is among `moves(s)`.
    spec fn after(s: Self::V, m: Move) -> Self::V;

    /// Whether the game is over and decided, for the side that moved last.
    spec fn won(s: Self::V) -> bool;

    /// The score of the position for `player`.
    spec fn score(s: Self::V, player: P) -> Score;

    /// Whether `legal_moves` always lists the moves in the canonical order.
    /// A game that shuffles its moves for varied play answers `false`.
    spec fn fixed_order() -> bool;

    /// Returns the player who moves next.
    fn turn(&self) -> (p: P)
        requires
            self.wf(),
        ensures
            p == Self::to_move(self@),
    ;

    /// Returns the position after `location` is played. The move must be legal.
    fn make_move(&self, location: Move) -> (next: Self)
        requires
            self.wf(),
            Self::moves(self@).contains(location),
        ensures
            next.wf(),
            next@ == Self::after(self@, location),
    ;

    /// Returns the playable moves: the canonical moves in some order, and in
    /// the canonical order itself for a game of fixed order. No move is
    /// `NO_MOVE`, so that a search can tell a move from the want of one.
    fn legal_moves(&self) -> (list: Vec<Move>)
        requires
            self.wf(),
        ensures
            list@.to_multiset() == Self::moves(self@).to_multiset(),
            Self::fixed_order() ==> list@ == Self::moves(self@),
            forall|k: int| 0 <= k < list.len() ==> #[trigger] list@[k] != NO_MOVE,
    ;

    /// Returns whether the position is decided.
    fn is_win(&self) -> (w: bool)
        requires
            self.wf(),
        ensures
            w == Self::won(self@),
    ;

    /// Returns whether the position is a draw: not decided, and without moves.
    fn is_draw(&self) -> (d: bool)
        requires
            self.wf(),
        ensures
            d == (!Self::won(self@) && Self::moves(self@).len() == 0),
    {
        if self.is_win() {
            return false;
        }
        let list = self.legal_moves();
        proof {
            vstd::seq_lib::to_multiset_len(list@);
            vstd::seq_lib::to_multiset_len(Self::moves(self@));
        }
        list.len() == 0
    }

    /// Returns the score of the position for `player`.
    fn evaluate(&self, player: P) -> (s: Score)
        requires
            self.wf(),
        ensures
            s == Self::score(self@, player),
    ;
}

/// The numbers from `from` up to `to` that `keep` holds of, in ascending
/// order, as moves.
pub open spec fn picked(from: int, to: int, keep: spec_fn(int) -> bool) -> Seq<Move>
    decreases to - from,
{
    if to <= from {
        Seq::empty()
    } else if keep(to - 1) {
        picked(from, to - 1, keep).push((to - 1) as Move)
    } else {
        picked(from, to - 1, keep)
    }
}

/// `picked` lists exactly the numbers in its range that `keep` holds of,
/// each once, in ascending order.
pub proof fn lemma_picked(from: int, to: int, keep: spec_fn(int) -> bool)
    requires
        0 <= from <= to <= i32::MAX,
    ensures
        picked(from, to, keep).len() <= to - from,
        forall|m: Move| #[trigger] picked(from, to, keep).contains(m) <==> (from <= m < to && keep(m as int)),
        forall|i: int, j: int|
            0 <= i < j < picked(from, to, keep).len() ==> picked(from, to, keep)[i] < picked(
                from,
                to,
                keep,
            )[j],
    decreases to - from,
{
    let all = picked(from, to, keep);
    if to > from {
        lemma_picked(from, to - 1, keep);
        let front = picked(from, to - 1, keep);
        if keep(to - 1) {
            assert(all == front.push((to - 1) as Move));
            assert(all[all.len() - 1] == to - 1);
            assert forall|m: Move| all.contains(m) implies (from <= m < to && keep(m as int)) by {
                let k = choose|k: int| 0 <= k < all.len() && all[k] == m;
                if k < front.len() {
                    assert(front[k] == m);
                    assert(front.contains(m));
                }
            }
            assert forall|m: Move| (from <= m < to && keep(m as int)) implies all.contains(m) by {
                if m < to - 1 {
                    assert(front.contains(m));
                    let k = choose|k: int| 0 <= k < front.len() && front[k] == m;
                    assert(all[k] == m);
                } else {
                    assert(all[all.len() - 1] == m);
                }
            }
            assert forall|i: int, j: int| 0 <= i < j < all.len() implies all[i] < all[j] by {
                assert(all[i] == front[i]);
                if j == all.len() - 1 {
                    assert(front.contains(front[i]));
                } else {
                    assert(all[j] == front[j]);
                }
            }
        }
    } else {
        assert forall|m: Move| !all.contains(m) by {}
    }
}

/// Whether the game at `s` is over: decided, or without moves.
pub open spec fn terminal<P: Piece, B: Board<P>>(s: B::V) -> bool {
    B::won(s) || B::moves(s).len() == 0
}

/// Whether the game at `s` is a draw: not decided, and without moves.
pub open spec fn drawn<P: Piece, B: Board<P>>(s: B::V) -> bool {
    !B::won(s) && B::moves(s).len() == 0
}

/// A position that is neither decided nor a draw has a move.
pub proof fn lemma_open_position_has_moves<P: Piece, B: Board<P>>(s: B::V)
    requires
        !B::won(s),
        !drawn::<P, B>(s),
    ensures
        B::moves(s).len() > 0,
        !terminal::<P, B>(s),
{
}

} // verus!
