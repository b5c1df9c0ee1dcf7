//! Game-tree search: plain minimax, minimax with alpha-beta pruning, and the
//! drivers that pick a move with them.

use crate::board::{terminal, Board, Move, Piece, Score, INFINITY, NEG_INFINITY, NO_MOVE};
use vstd::prelude::*;

verus! {

/// The larger of two scores.
pub open spec fn higher(a: Score, b: Score) -> Score {
    if a < b {
        b
    } else {
        a
    }
}

/// The smaller of two scores.
pub open spec fn lower(a: Score, b: Score) -> Score {
    if a < b {
        a
    } else {
        b
    }
}

/// The minimax value of position `s` for `player`, looking `depth` plies ahead.
///
/// A position that is over, or that is reached with no depth left, is worth
/// its score for `player`. Any other position is worth the best of its
/// replies: the highest where `maximizing`, the lowest otherwise.
pub open spec fn minimax_value<B: Board<P>, P: Piece>(
    s: B::V,
    maximizing: bool,
    player: P,
    depth: nat,
) -> Score
    decreases depth, 0nat, 0nat,
{
    if terminal::<P, B>(s) || depth == 0 {
        B::score(s, player)
    } else {
        best_reply::<B, P>(
            s,
            B::moves(s),
            maximizing,
            player,
            (depth - 1) as nat,
            if maximizing {
                NEG_INFINITY
            } else {
                INFINITY
            },
        )
    }
}

/// The value of playing `m` at `s`, a position of the kind `maximizing`: the
/// minimax value of the position reached, where the other side chooses.
pub open spec fn reply_value<B: Board<P>, P: Piece>(
    s: B::V,
    m: Move,
    maximizing: bool,
    player: P,
    depth: nat,
) -> Score
    decreases depth, 1nat, 0nat,
{
    minimax_value::<B, P>(B::after(s, m), !maximizing, player, depth)
}

/// The best value among `start` and the values of the moves `ms` at `s`: the
/// highest where `maximizing`, the lowest otherwise.
pub open spec fn best_reply<B: Board<P>, P: Piece>(
    s: B::V,
    ms: Seq<Move>,
    maximizing: bool,
    player: P,
    depth: nat,
    start: Score,
) -> Score
    decreases depth, 2nat, ms.len(),
{
    if ms.len() == 0 {
        start
    } else {
        let rest = best_reply::<B, P>(s, ms.drop_last(), maximizing, player, depth, start);
        let this = reply_value::<B, P>(s, ms.last(), maximizing, player, depth);
        if maximizing {
            higher(this, rest)
        } else {
            lower(this, rest)
        }
    }
}

/// Returns the larger of two scores.
fn score_max(a: Score, b: Score) -> (m: Score)
    ensures
        m == higher(a, b),
{
    if a < b {
        b
    } else {
        a
    }
}

/// Returns the smaller of two scores.
fn score_min(a: Score, b: Score) -> (m: Score)
    ensures
        m == lower(a, b),
{
    if a < b {
        a
    } else {
        b
    }
}

/// Whether `v` is the best of `start` and the values of the moves that occur
/// in `ms`: no value is better, and `v` is `start` or one of the values.
pub open spec fn is_best_of<B: Board<P>, P: Piece>(
    v: Score,
    s: B::V,
    ms: Seq<Move>,
    maximizing: bool,
    player: P,
    depth: nat,
    start: Score,
) -> bool {
    if maximizing {
        &&& start <= v
        &&& forall|m: Move| #[trigger]
            ms.contains(m) ==> reply_value::<B, P>(s, m, maximizing, player, depth) <= v
        &&& (v == start || exists|m: Move| #[trigger]
            ms.contains(m) && reply_value::<B, P>(s, m, maximizing, player, depth) == v)
    } else {
        &&& v <= start
        &&& forall|m: Move| #[trigger]
            ms.contains(m) ==> v <= reply_value::<B, P>(s, m, maximizing, player, depth)
        &&& (v == start || exists|m: Move| #[trigger]
            ms.contains(m) && reply_value::<B, P>(s, m, maximizing, player, depth) == v)
    }
}

/// `best_reply` is the best of its start value and the values of its moves.
pub proof fn lemma_best_reply_is_best<B: Board<P>, P: Piece>(
    s: B::V,
    ms: Seq<Move>,
    maximizing: bool,
    player: P,
    depth: nat,
    start: Score,
)
    ensures
        is_best_of::<B, P>(
            best_reply::<B, P>(s, ms, maximizing, player, depth, start),
            s,
            ms,
            maximizing,
            player,
            depth,
            start,
        ),
    decreases ms.len(),
{
    if ms.len() > 0 {
        let front = ms.drop_last();
        lemma_best_reply_is_best::<B, P>(s, front, maximizing, player, depth, start);
        let rest = best_reply::<B, P>(s, front, maximizing, player, depth, start);
        let v = best_reply::<B, P>(s, ms, maximizing, player, depth, start);
        assert(ms.contains(ms.last())) by {
            assert(ms[ms.len() - 1] == ms.last());
        }
        assert forall|m: Move| #[trigger] ms.contains(m) implies front.contains(m) || m
            == ms.last() by {
            let k = choose|k: int| 0 <= k < ms.len() && ms[k] == m;
            if k < ms.len() - 1 {
                assert(front[k] == m);
            }
        }
        assert forall|m: Move| #[trigger] front.contains(m) implies ms.contains(m) by {
            let k = choose|k: int| 0 <= k < front.len() && front[k] == m;
            assert(ms[k] == m);
        }
        if rest != start && v == rest {
            let w = choose|m: Move| #[trigger]
                front.contains(m) && reply_value::<B, P>(s, m, maximizing, player, depth) == rest;
            assert(ms.contains(w));
        }
    }
}

/// Two values that are each the best over the same set of moves are equal.
pub proof fn lemma_best_is_unique<B: Board<P>, P: Piece>(
    v1: Score,
    v2: Score,
    s: B::V,
    ms1: Seq<Move>,
    ms2: Seq<Move>,
    maximizing: bool,
    player: P,
    depth: nat,
    start: Score,
)
    requires
        is_best_of::<B, P>(v1, s, ms1, maximizing, player, depth, start),
        is_best_of::<B, P>(v2, s, ms2, maximizing, player, depth, start),
        forall|m: Move| ms1.contains(m) <==> ms2.contains(m),
    ensures
        v1 == v2,
{
    if v1 != start {
        let w = choose|m: Move| #[trigger]
            ms1.contains(m) && reply_value::<B, P>(s, m, maximizing, player, depth) == v1;
        assert(ms2.contains(w));
    }
    if v2 != start {
        let w = choose|m: Move| #[trigger]
            ms2.contains(m) && reply_value::<B, P>(s, m, maximizing, player, depth) == v2;
        assert(ms1.contains(w));
    }
}

/// Two lists with the same moves, in whatever order, contain the same moves.
pub proof fn lemma_same_moves(ms1: Seq<Move>, ms2: Seq<Move>)
    requires
        ms1.to_multiset() == ms2.to_multiset(),
    ensures
        ms1.len() == ms2.len(),
        forall|m: Move| ms1.contains(m) <==> ms2.contains(m),
        forall|k: int| 0 <= k < ms1.len() ==> ms2.contains(#[trigger] ms1[k]),
{
    vstd::seq_lib::to_multiset_len(ms1);
    vstd::seq_lib::to_multiset_len(ms2);
    assert forall|m: Move| ms1.contains(m) <==> ms2.contains(m) by {
        vstd::seq_lib::to_multiset_contains(ms1, m);
        vstd::seq_lib::to_multiset_contains(ms2, m);
    }
    assert forall|k: int| 0 <= k < ms1.len() implies ms2.contains(#[trigger] ms1[k]) by {
        assert(ms1.contains(ms1[k]));
    }
}

/// The order of the moves does not matter to the best value among them.
pub proof fn lemma_best_reply_any_order<B: Board<P>, P: Piece>(
    s: B::V,
    ms1: Seq<Move>,
    ms2: Seq<Move>,
    maximizing: bool,
    player: P,
    depth: nat,
    start: Score,
)
    requires
        ms1.to_multiset() == ms2.to_multiset(),
    ensures
        best_reply::<B, P>(s, ms1, maximizing, player, depth, start) == best_reply::<B, P>(
            s,
            ms2,
            maximizing,
            player,
            depth,
            start,
        ),
{
    lemma_same_moves(ms1, ms2);
    lemma_best_reply_is_best::<B, P>(s, ms1, maximizing, player, depth, start);
    lemma_best_reply_is_best::<B, P>(s, ms2, maximizing, player, depth, start);
    lemma_best_is_unique::<B, P>(
        best_reply::<B, P>(s, ms1, maximizing, player, depth, start),
        best_reply::<B, P>(s, ms2, maximizing, player, depth, start),
        s,
        ms1,
        ms2,
        maximizing,
        player,
        depth,
        start,
    );
}

/// Finds the best outcome that `original_player` can reach from `board`,
/// looking `max_depth` plies ahead and visiting every line of play.
pub fn minimax<B: Board<P>, P: Piece>(
    board: B,
    maximizing: bool,
    original_player: P,
    max_depth: i32,
) -> (value: Score)
    requires
        board.wf(),
        max_depth >= 0,
    ensures
        value == minimax_value::<B, P>(board@, maximizing, original_player, max_depth as nat),
    decreases max_depth,
{
    if board.is_win() || board.is_draw() || max_depth == 0 {
        return board.evaluate(original_player);
    }
    let moves = board.legal_moves();
    let ghost depth = (max_depth - 1) as nat;
    let start = if maximizing {
        NEG_INFINITY
    } else {
        INFINITY
    };
    let mut best_eval = start;
    let mut i: usize = 0;
    proof {
        lemma_same_moves(moves@, B::moves(board@));
    }
    while i < moves.len()
        invariant
            board.wf(),
            max_depth > 0,
            depth == max_depth - 1,
            i <= moves.len(),
            forall|k: int| 0 <= k < moves.len() ==> B::moves(board@).contains(#[trigger] moves@[k]),
            best_eval == best_reply::<B, P>(
                board@,
                moves@.take(i as int),
                maximizing,
                original_player,
                depth,
                start,
            ),
        decreases moves.len() - i,
    {
        let result = minimax(board.make_move(moves[i]), !maximizing, original_player, max_depth - 1);
        proof {
            let upto = moves@.take(i + 1);
            assert(upto.drop_last() == moves@.take(i as int));
            assert(upto.last() == moves@[i as int]);
            assert(result == reply_value::<B, P>(
                board@,
                upto.last(),
                maximizing,
                original_player,
                depth,
            ));
        }
        best_eval = if maximizing {
            score_max(result, best_eval)
        } else {
            score_min(result, best_eval)
        };
        i += 1;
    }
    proof {
        assert(moves@.take(i as int) == moves@);
        lemma_best_reply_any_order::<B, P>(
            board@,
            moves@,
            B::moves(board@),
            maximizing,
            original_player,
            depth,
            start,
        );
    }
    best_eval
}

/// What the pruned search returns at `s` within the window from `alpha` to
/// `beta` when the moves are tried in their canonical order.
pub open spec fn pruned_value<B: Board<P>, P: Piece>(
    s: B::V,
    maximizing: bool,
    player: P,
    depth: nat,
    alpha: Score,
    beta: Score,
) -> Score
    decreases depth, 0nat, 0nat,
{
    if terminal::<P, B>(s) || depth == 0 {
        B::score(s, player)
    } else {
        pruned_scan::<B, P>(s, B::moves(s), 0, maximizing, player, (depth - 1) as nat, alpha, beta)
    }
}

/// What the pruned search returns at `s` when it has reached the `i`-th of
/// the moves `ms` with the running bounds `a` and `b`: the bound of the node
/// is moved by the value of the move, the search stops where the bounds
/// meet, and goes on to the next move where they do not.
pub open spec fn pruned_scan<B: Board<P>, P: Piece>(
    s: B::V,
    ms: Seq<Move>,
    i: nat,
    maximizing: bool,
    player: P,
    depth: nat,
    a: Score,
    b: Score,
) -> Score
    decreases depth, 1nat, ms.len() - i,
{
    if i >= ms.len() {
        if maximizing {
            a
        } else {
            b
        }
    } else {
        let result = pruned_value::<B, P>(B::after(s, ms[i as int]), !maximizing, player, depth, a, b);
        if maximizing {
            let raised = higher(result, a);
            if b <= raised {
                raised
            } else {
                pruned_scan::<B, P>(s, ms, i + 1, maximizing, player, depth, raised, b)
            }
        } else {
            let lowered = lower(result, b);
            if lowered <= a {
                lowered
            } else {
                pruned_scan::<B, P>(s, ms, i + 1, maximizing, player, depth, a, lowered)
            }
        }
    }
}

/// What a search within the window from `alpha` to `beta` says of the exact
/// value: the value itself where it lies strictly inside the window, and
/// otherwise a bound on the same side of the window as the exact value.
pub open spec fn within_window(value: Score, exact: Score, alpha: Score, beta: Score) -> bool {
    &&& exact <= alpha ==> value <= alpha
    &&& exact >= beta ==> value >= beta
    &&& alpha < exact < beta ==> value == exact
}

/// Whether each of the first `n` moves of `order` is worth at most `bound`.
pub open spec fn all_at_most<B: Board<P>, P: Piece>(
    s: B::V,
    order: Seq<Move>,
    n: int,
    bound: Score,
    maximizing: bool,
    player: P,
    depth: nat,
) -> bool {
    forall|k: int|
        0 <= k < n ==> #[trigger] reply_value::<B, P>(s, order[k], maximizing, player, depth)
            <= bound
}

/// Whether each of the first `n` moves of `order` is worth at least `bound`.
pub open spec fn all_at_least<B: Board<P>, P: Piece>(
    s: B::V,
    order: Seq<Move>,
    n: int,
    bound: Score,
    maximizing: bool,
    player: P,
    depth: nat,
) -> bool {
    forall|k: int|
        0 <= k < n ==> #[trigger] reply_value::<B, P>(s, order[k], maximizing, player, depth)
            >= bound
}

/// Whether one of the first `n` moves of `order` is worth at most `bound`.
pub open spec fn some_at_most<B: Board<P>, P: Piece>(
    s: B::V,
    order: Seq<Move>,
    n: int,
    bound: Score,
    maximizing: bool,
    player: P,
    depth: nat,
) -> bool {
    exists|k: int|
        0 <= k < n && #[trigger] reply_value::<B, P>(s, order[k], maximizing, player, depth)
            <= bound
}

/// Whether one of the first `n` moves of `order` is worth at least `bound`.
pub open spec fn some_at_least<B: Board<P>, P: Piece>(
    s: B::V,
    order: Seq<Move>,
    n: int,
    bound: Score,
    maximizing: bool,
    player: P,
    depth: nat,
) -> bool {
    exists|k: int|
        0 <= k < n && #[trigger] reply_value::<B, P>(s, order[k], maximizing, player, depth)
            >= bound
}

/// What a maximizing node knows of its running bound `a` after it has
/// searched the first `n` moves of `order` within the window `alpha`, `beta`.
pub open spec fn raised_bound<B: Board<P>, P: Piece>(
    a: Score,
    s: B::V,
    order: Seq<Move>,
    n: int,
    alpha: Score,
    beta: Score,
    player: P,
    depth: nat,
) -> bool {
    &&& alpha <= a
    &&& all_at_most::<B, P>(s, order, n, alpha, true, player, depth) ==> a == alpha
    &&& some_at_least::<B, P>(s, order, n, beta, true, player, depth) ==> a >= beta
    &&& (!all_at_most::<B, P>(s, order, n, alpha, true, player, depth) && !some_at_least::<B, P>(
        s,
        order,
        n,
        beta,
        true,
        player,
        depth,
    )) ==> (all_at_most::<B, P>(s, order, n, a, true, player, depth) && some_at_least::<B, P>(
        s,
        order,
        n,
        a,
        true,
        player,
        depth,
    ))
}

/// What a minimizing node knows of its running bound `b` after it has
/// searched the first `n` moves of `order` within the window `alpha`, `beta`.
pub open spec fn lowered_bound<B: Board<P>, P: Piece>(
    b: Score,
    s: B::V,
    order: Seq<Move>,
    n: int,
    alpha: Score,
    beta: Score,
    player: P,
    depth: nat,
) -> bool {
    &&& b <= beta
    &&& all_at_least::<B, P>(s, order, n, beta, false, player, depth) ==> b == beta
    &&& some_at_most::<B, P>(s, order, n, alpha, false, player, depth) ==> b <= alpha
    &&& (!all_at_least::<B, P>(s, order, n, beta, false, player, depth) && !some_at_most::<B, P>(
        s,
        order,
        n,
        alpha,
        false,
        player,
        depth,
    )) ==> (all_at_least::<B, P>(s, order, n, b, false, player, depth) && some_at_most::<B, P>(
        s,
        order,
        n,
        b,
        false,
        player,
        depth,
    ))
}

/// Searching one more move within the window from the running bound to
/// `beta` keeps what a maximizing node knows of its bound.
proof fn lemma_raise_step<B: Board<P>, P: Piece>(
    a: Score,
    result: Score,
    s: B::V,
    order: Seq<Move>,
    n: int,
    alpha: Score,
    beta: Score,
    player: P,
    depth: nat,
)
    requires
        0 <= n < order.len(),
        raised_bound::<B, P>(a, s, order, n, alpha, beta, player, depth),
        within_window(result, reply_value::<B, P>(s, order[n], true, player, depth), a, beta),
    ensures
        raised_bound::<B, P>(higher(result, a), s, order, n + 1, alpha, beta, player, depth),
{
    let a2 = higher(result, a);
    let this = reply_value::<B, P>(s, order[n], true, player, depth);
    let low = all_at_most::<B, P>(s, order, n, alpha, true, player, depth);
    let high = some_at_least::<B, P>(s, order, n, beta, true, player, depth);
    let low2 = all_at_most::<B, P>(s, order, n + 1, alpha, true, player, depth);
    let high2 = some_at_least::<B, P>(s, order, n + 1, beta, true, player, depth);
    assert(low2 <==> (low && this <= alpha));
    assert(high2 <==> (high || this >= beta)) by {
        if high {
            let k = choose|k: int|
                0 <= k < n && #[trigger] reply_value::<B, P>(s, order[k], true, player, depth)
                    >= beta;
            assert(0 <= k < n + 1);
        }
        if high2 {
            let k = choose|k: int|
                0 <= k < n + 1 && #[trigger] reply_value::<B, P>(s, order[k], true, player, depth)
                    >= beta;
            if k < n {
                assert(high);
            }
        }
    }
    if !low2 && !high2 {
        if low {
            assert(a == alpha);
            assert(alpha < this < beta);
            assert(a2 == this);
        } else {
            assert(all_at_most::<B, P>(s, order, n, a, true, player, depth));
            let k = choose|k: int|
                0 <= k < n && #[trigger] reply_value::<B, P>(s, order[k], true, player, depth)
                    >= a;
            assert(reply_value::<B, P>(s, order[k], true, player, depth) == a);
            assert(a < beta);
            if this <= a {
                assert(a2 == a);
                assert(0 <= k < n + 1);
            } else {
                assert(a2 == this);
            }
        }
        assert(all_at_most::<B, P>(s, order, n + 1, a2, true, player, depth));
        assert(reply_value::<B, P>(s, order[n], true, player, depth) == this);
        assert(some_at_least::<B, P>(s, order, n + 1, a2, true, player, depth));
    }
}

/// Searching one more move within the window from `alpha` to the running
/// bound keeps what a minimizing node knows of its bound.
proof fn lemma_lower_step<B: Board<P>, P: Piece>(
    b: Score,
    result: Score,
    s: B::V,
    order: Seq<Move>,
    n: int,
    alpha: Score,
    beta: Score,
    player: P,
    depth: nat,
)
    requires
        0 <= n < order.len(),
        lowered_bound::<B, P>(b, s, order, n, alpha, beta, player, depth),
        within_window(result, reply_value::<B, P>(s, order[n], false, player, depth), alpha, b),
    ensures
        lowered_bound::<B, P>(lower(result, b), s, order, n + 1, alpha, beta, player, depth),
{
    let b2 = lower(result, b);
    let this = reply_value::<B, P>(s, order[n], false, player, depth);
    let high = all_at_least::<B, P>(s, order, n, beta, false, player, depth);
    let low = some_at_most::<B, P>(s, order, n, alpha, false, player, depth);
    let high2 = all_at_least::<B, P>(s, order, n + 1, beta, false, player, depth);
    let low2 = some_at_most::<B, P>(s, order, n + 1, alpha, false, player, depth);
    assert(high2 <==> (high && this >= beta));
    assert(low2 <==> (low || this <= alpha)) by {
        if low {
            let k = choose|k: int|
                0 <= k < n && #[trigger] reply_value::<B, P>(s, order[k], false, player, depth)
                    <= alpha;
            assert(0 <= k < n + 1);
        }
        if low2 {
            let k = choose|k: int|
                0 <= k < n + 1 && #[trigger] reply_value::<B, P>(
                    s,
                    order[k],
                    false,
                    player,
                    depth,
                ) <= alpha;
            if k < n {
                assert(low);
            }
        }
    }
    if !high2 && !low2 {
        if high {
            assert(b == beta);
            assert(alpha < this < beta);
            assert(b2 == this);
        } else {
            assert(all_at_least::<B, P>(s, order, n, b, false, player, depth));
            let k = choose|k: int|
                0 <= k < n && #[trigger] reply_value::<B, P>(s, order[k], false, player, depth)
                    <= b;
            assert(reply_value::<B, P>(s, order[k], false, player, depth) == b);
            assert(alpha < b);
            if this >= b {
                assert(b2 == b);
                assert(0 <= k < n + 1);
            } else {
                assert(b2 == this);
            }
        }
        assert(all_at_least::<B, P>(s, order, n + 1, b2, false, player, depth));
        assert(reply_value::<B, P>(s, order[n], false, player, depth) == this);
        assert(some_at_most::<B, P>(s, order, n + 1, b2, false, player, depth));
    }
}

/// When a maximizing node stops, after all its moves or at a cutoff, its
/// running bound answers for the node's minimax value within the window.
proof fn lemma_raised_bound_answers<B: Board<P>, P: Piece>(
    a: Score,
    s: B::V,
    order: Seq<Move>,
    n: int,
    alpha: Score,
    beta: Score,
    player: P,
    depth: nat,
)
    requires
        !terminal::<P, B>(s),
        order.to_multiset() == B::moves(s).to_multiset(),
        0 <= n <= order.len(),
        n == order.len() || beta <= a,
        raised_bound::<B, P>(a, s, order, n, alpha, beta, player, depth),
    ensures
        within_window(a, minimax_value::<B, P>(s, true, player, depth + 1), alpha, beta),
{
    let exact = minimax_value::<B, P>(s, true, player, depth + 1);
    assert(exact == best_reply::<B, P>(s, B::moves(s), true, player, depth, NEG_INFINITY));
    lemma_best_reply_is_best::<B, P>(s, B::moves(s), true, player, depth, NEG_INFINITY);
    lemma_same_moves(order, B::moves(s));
    assert(all_at_most::<B, P>(s, order, n, exact, true, player, depth)) by {
        assert forall|k: int| 0 <= k < n implies #[trigger] reply_value::<B, P>(
            s,
            order[k],
            true,
            player,
            depth,
        ) <= exact by {
            assert(B::moves(s).contains(order[k]));
        }
    }
    if exact >= beta && n == order.len() && exact != NEG_INFINITY {
        let w = choose|m: Move| #[trigger]
            B::moves(s).contains(m) && reply_value::<B, P>(s, m, true, player, depth) == exact;
        assert(order.contains(w));
        let k = choose|k: int| 0 <= k < order.len() && order[k] == w;
        assert(reply_value::<B, P>(s, order[k], true, player, depth) >= beta);
        assert(some_at_least::<B, P>(s, order, n, beta, true, player, depth));
    }
    if alpha < exact < beta {
        assert(!some_at_least::<B, P>(s, order, n, beta, true, player, depth));
        if n == order.len() {
            let w = choose|m: Move| #[trigger]
                B::moves(s).contains(m) && reply_value::<B, P>(s, m, true, player, depth) == exact;
            assert(order.contains(w));
            let k = choose|k: int| 0 <= k < order.len() && order[k] == w;
            assert(reply_value::<B, P>(s, order[k], true, player, depth) > alpha);
            assert(!all_at_most::<B, P>(s, order, n, alpha, true, player, depth));
            let j = choose|j: int|
                0 <= j < n && #[trigger] reply_value::<B, P>(s, order[j], true, player, depth)
                    >= a;
            assert(a == exact);
        } else {
            assert(a != alpha);
            assert(!all_at_most::<B, P>(s, order, n, alpha, true, player, depth));
            let j = choose|j: int|
                0 <= j < n && #[trigger] reply_value::<B, P>(s, order[j], true, player, depth)
                    >= a;
            assert(false);
        }
    }
}

/// When a minimizing node stops, after all its moves or at a cutoff, its
/// running bound answers for the node's minimax value within the window.
proof fn lemma_lowered_bound_answers<B: Board<P>, P: Piece>(
    b: Score,
    s: B::V,
    order: Seq<Move>,
    n: int,
    alpha: Score,
    beta: Score,
    player: P,
    depth: nat,
)
    requires
        !terminal::<P, B>(s),
        order.to_multiset() == B::moves(s).to_multiset(),
        0 <= n <= order.len(),
        n == order.len() || b <= alpha,
        lowered_bound::<B, P>(b, s, order, n, alpha, beta, player, depth),
    ensures
        within_window(b, minimax_value::<B, P>(s, false, player, depth + 1), alpha, beta),
{
    let exact = minimax_value::<B, P>(s, false, player, depth + 1);
    assert(exact == best_reply::<B, P>(s, B::moves(s), false, player, depth, INFINITY));
    lemma_best_reply_is_best::<B, P>(s, B::moves(s), false, player, depth, INFINITY);
    lemma_same_moves(order, B::moves(s));
    assert(all_at_least::<B, P>(s, order, n, exact, false, player, depth)) by {
        assert forall|k: int| 0 <= k < n implies #[trigger] reply_value::<B, P>(
            s,
            order[k],
            false,
            player,
            depth,
        ) >= exact by {
            assert(B::moves(s).contains(order[k]));
        }
    }
    if exact <= alpha && n == order.len() && exact != INFINITY {
        let w = choose|m: Move| #[trigger]
            B::moves(s).contains(m) && reply_value::<B, P>(s, m, false, player, depth) == exact;
        assert(order.contains(w));
        let k = choose|k: int| 0 <= k < order.len() && order[k] == w;
        assert(reply_value::<B, P>(s, order[k], false, player, depth) <= alpha);
        assert(some_at_most::<B, P>(s, order, n, alpha, false, player, depth));
    }
    if alpha < exact < beta {
        assert(!some_at_most::<B, P>(s, order, n, alpha, false, player, depth));
        if n == order.len() {
            let w = choose|m: Move| #[trigger]
                B::moves(s).contains(m) && reply_value::<B, P>(s, m, false, player, depth)
                    == exact;
            assert(order.contains(w));
            let k = choose|k: int| 0 <= k < order.len() && order[k] == w;
            assert(reply_value::<B, P>(s, order[k], false, player, depth) < beta);
            assert(!all_at_least::<B, P>(s, order, n, beta, false, player, depth));
            let j = choose|j: int|
                0 <= j < n && #[trigger] reply_value::<B, P>(s, order[j], false, player, depth)
                    <= b;
            assert(b == exact);
        } else {
            assert(b != beta);
            assert(!all_at_least::<B, P>(s, order, n, beta, false, player, depth));
            let j = choose|j: int|
                0 <= j < n && #[trigger] reply_value::<B, P>(s, order[j], false, player, depth)
                    <= b;
            assert(false);
        }
    }
}

/// Finds the best outcome that `original_player` can reach from `board`,
/// looking `max_depth` plies ahead, and skips the lines of play that cannot
/// change the answer within the window from `alpha` to `beta`.
///
/// With the full window, from `NEG_INFINITY` to `INFINITY`, the result is
/// the minimax value itself.
pub fn alphabeta<B: Board<P>, P: Piece>(
    board: B,
    maximizing: bool,
    original_player: P,
    max_depth: i32,
    alpha: Score,
    beta: Score,
) -> (value: Score)
    requires
        board.wf(),
        max_depth >= 0,
    ensures
        within_window(
            value,
            minimax_value::<B, P>(board@, maximizing, original_player, max_depth as nat),
            alpha,
            beta,
        ),
        alpha == NEG_INFINITY && beta == INFINITY ==> value == minimax_value::<B, P>(
            board@,
            maximizing,
            original_player,
            max_depth as nat,
        ),
        terminal::<P, B>(board@) || max_depth == 0 ==> value == B::score(
            board@,
            original_player,
        ),
        !terminal::<P, B>(board@) && max_depth > 0 && maximizing ==> alpha <= value,
        !terminal::<P, B>(board@) && max_depth > 0 && !maximizing ==> value <= beta,
        B::fixed_order() ==> value == pruned_value::<B, P>(
            board@,
            maximizing,
            original_player,
            max_depth as nat,
            alpha,
            beta,
        ),
    decreases max_depth,
{
    if board.is_win() || board.is_draw() || max_depth == 0 {
        return board.evaluate(original_player);
    }
    let moves = board.legal_moves();
    let ghost depth = (max_depth - 1) as nat;
    let mut a = alpha;
    let mut b = beta;
    let mut i: usize = 0;
    proof {
        lemma_same_moves(moves@, B::moves(board@));
    }
    if maximizing {
        while i < moves.len()
            invariant_except_break
                B::fixed_order() ==> pruned_scan::<B, P>(
                    board@,
                    moves@,
                    i as nat,
                    true,
                    original_player,
                    depth,
                    a,
                    beta,
                ) == pruned_scan::<B, P>(
                    board@,
                    moves@,
                    0,
                    true,
                    original_player,
                    depth,
                    alpha,
                    beta,
                ),
            invariant
                board.wf(),
                max_depth > 0,
                depth == max_depth - 1,
                i <= moves.len(),
                b == beta,
                forall|k: int|
                    0 <= k < moves.len() ==> B::moves(board@).contains(#[trigger] moves@[k]),
                raised_bound::<B, P>(a, board@, moves@, i as int, alpha, beta, original_player, depth),
            ensures
                i <= moves.len(),
                i == moves.len() || beta <= a,
                raised_bound::<B, P>(a, board@, moves@, i as int, alpha, beta, original_player, depth),
                B::fixed_order() ==> a == pruned_scan::<B, P>(
                    board@,
                    moves@,
                    0,
                    true,
                    original_player,
                    depth,
                    alpha,
                    beta,
                ),
            decreases moves.len() - i,
        {
            let result = alphabeta(
                board.make_move(moves[i]),
                false,
                original_player,
                max_depth - 1,
                a,
                b,
            );
            proof {
                lemma_raise_step::<B, P>(
                    a,
                    result,
                    board@,
                    moves@,
                    i as int,
                    alpha,
                    beta,
                    original_player,
                    depth,
                );
            }
            a = score_max(result, a);
            i += 1;
            if b <= a {
                break ;
            }
        }
        proof {
            lemma_raised_bound_answers::<B, P>(
                a,
                board@,
                moves@,
                i as int,
                alpha,
                beta,
                original_player,
                depth,
            );
        }
        a
    } else {
        while i < moves.len()
            invariant_except_break
                B::fixed_order() ==> pruned_scan::<B, P>(
                    board@,
                    moves@,
                    i as nat,
                    false,
                    original_player,
                    depth,
                    alpha,
                    b,
                ) == pruned_scan::<B, P>(
                    board@,
                    moves@,
                    0,
                    false,
                    original_player,
                    depth,
                    alpha,
                    beta,
                ),
            invariant
                board.wf(),
                max_depth > 0,
                depth == max_depth - 1,
                i <= moves.len(),
                a == alpha,
                forall|k: int|
                    0 <= k < moves.len() ==> B::moves(board@).contains(#[trigger] moves@[k]),
                lowered_bound::<B, P>(b, board@, moves@, i as int, alpha, beta, original_player, depth),
            ensures
                i <= moves.len(),
                i == moves.len() || b <= alpha,
                lowered_bound::<B, P>(b, board@, moves@, i as int, alpha, beta, original_player, depth),
                B::fixed_order() ==> b == pruned_scan::<B, P>(
                    board@,
                    moves@,
                    0,
                    false,
                    original_player,
                    depth,
                    alpha,
                    beta,
                ),
            decreases moves.len() - i,
        {
            let result = alphabeta(
                board.make_move(moves[i]),
                true,
                original_player,
                max_depth - 1,
                a,
                b,
            );
            proof {
                lemma_lower_step::<B, P>(
                    b,
                    result,
                    board@,
                    moves@,
                    i as int,
                    alpha,
                    beta,
                    original_player,
                    depth,
                );
            }
            b = score_min(result, b);
            i += 1;
            if b <= a {
                break ;
            }
        }
        proof {
            lemma_lowered_bound_answers::<B, P>(
                b,
                board@,
                moves@,
                i as int,
                alpha,
                beta,
                original_player,
                depth,
            );
        }
        b
    }
}

/// The move that a driver picks at `s` when it tries the moves in `order`
/// and searches `depth` plies behind each: the first move whose value, for
/// the player to move, is above `NEG_INFINITY` and above the value of every
/// move before it. `NO_MOVE` where there is no such move.
pub open spec fn first_best<B: Board<P>, P: Piece>(s: B::V, order: Seq<Move>, depth: nat) -> Move
    decreases order.len(),
{
    if order.len() == 0 {
        NO_MOVE
    } else {
        let front = order.drop_last();
        if reply_value::<B, P>(s, order.last(), true, B::to_move(s), depth) > best_reply::<B, P>(
            s,
            front,
            true,
            B::to_move(s),
            depth,
            NEG_INFINITY,
        ) {
            order.last()
        } else {
            first_best::<B, P>(s, front, depth)
        }
    }
}

/// Whether `choice` is what a driver may return at `s`: the pick from the
/// legal moves in some order, and in the canonical order for a game that
/// lists its moves in a fixed order.
pub open spec fn chosen_from<B: Board<P>, P: Piece>(s: B::V, depth: nat, choice: Move) -> bool {
    exists|order: Seq<Move>|
        #![trigger order.to_multiset()]
        {
            &&& order.to_multiset() == B::moves(s).to_multiset()
            &&& B::fixed_order() ==> order == B::moves(s)
            &&& choice == first_best::<B, P>(s, order, depth)
        }
}

/// Finds the best move in the position for the player to move, looking
/// `max_depth` plies behind each move with plain minimax.
///
/// Ties go to the move that `legal_moves` lists first. Returns `NO_MOVE`,
/// which is no move of any position, where there is no move, or none worth
/// more than `NEG_INFINITY`.
pub fn find_best_move_minimax<B: Board<P>, P: Piece>(board: B, max_depth: i32) -> (best: Move)
    requires
        board.wf(),
        max_depth >= 0,
    ensures
        chosen_from::<B, P>(board@, max_depth as nat, best),
        B::fixed_order() ==> best == first_best::<B, P>(
            board@,
            B::moves(board@),
            max_depth as nat,
        ),
        !B::moves(board@).contains(NO_MOVE),
        B::moves(board@).len() == 0 ==> best == NO_MOVE,
        best == NO_MOVE <==> best_reply::<B, P>(
            board@,
            B::moves(board@),
            true,
            B::to_move(board@),
            max_depth as nat,
            NEG_INFINITY,
        ) == NEG_INFINITY,
        best_reply::<B, P>(
            board@,
            B::moves(board@),
            true,
            B::to_move(board@),
            max_depth as nat,
            NEG_INFINITY,
        ) > NEG_INFINITY ==> B::moves(board@).contains(best) && reply_value::<B, P>(
            board@,
            best,
            true,
            B::to_move(board@),
            max_depth as nat,
        ) == best_reply::<B, P>(
            board@,
            B::moves(board@),
            true,
            B::to_move(board@),
            max_depth as nat,
            NEG_INFINITY,
        ),
{
    let mut best_eval = NEG_INFINITY;
    let mut best_move: Move = NO_MOVE;
    let moves = board.legal_moves();
    let ghost depth = max_depth as nat;
    let mut i: usize = 0;
    proof {
        lemma_same_moves(moves@, B::moves(board@));
    }
    while i < moves.len()
        invariant
            board.wf(),
            max_depth >= 0,
            depth == max_depth,
            i <= moves.len(),
            forall|k: int| 0 <= k < moves.len() ==> B::moves(board@).contains(#[trigger] moves@[k]),
            forall|k: int| 0 <= k < moves.len() ==> #[trigger] moves@[k] != NO_MOVE,
            best_eval == best_reply::<B, P>(
                board@,
                moves@.take(i as int),
                true,
                B::to_move(board@),
                depth,
                NEG_INFINITY,
            ),
            best_move == first_best::<B, P>(board@, moves@.take(i as int), depth),
        decreases moves.len() - i,
    {
        let m = moves[i];
        let result = minimax(board.make_move(m), false, board.turn(), max_depth);
        proof {
            let upto = moves@.take(i + 1);
            assert(upto.drop_last() == moves@.take(i as int));
            assert(upto.last() == m);
            assert(result == reply_value::<B, P>(board@, m, true, B::to_move(board@), depth));
        }
        if result > best_eval {
            best_eval = result;
            best_move = m;
        }
        i += 1;
    }
    proof {
        assert(moves@.take(i as int) == moves@);
        lemma_chosen_is_best::<B, P>(board@, depth, best_move);
        lemma_same_moves(moves@, B::moves(board@));
        if B::moves(board@).contains(NO_MOVE) {
            let k = choose|k: int| 0 <= k < moves@.len() && moves@[k] == NO_MOVE;
            assert(moves@[k] != NO_MOVE);
        }
    }
    best_move
}

/// Finds the best move in the position for the player to move, looking
/// `max_depth` plies behind each move with alpha-beta pruning.
///
/// Ties go to the move that `legal_moves` lists first. Returns `NO_MOVE`,
/// which is no move of any position, where there is no move, or none worth
/// more than `NEG_INFINITY`.
pub fn find_best_move<B: Board<P>, P: Piece>(board: B, max_depth: i32) -> (best: Move)
    requires
        board.wf(),
        max_depth >= 0,
    ensures
        chosen_from::<B, P>(board@, max_depth as nat, best),
        B::fixed_order() ==> best == first_best::<B, P>(
            board@,
            B::moves(board@),
            max_depth as nat,
        ),
        !B::moves(board@).contains(NO_MOVE),
        B::moves(board@).len() == 0 ==> best == NO_MOVE,
        best == NO_MOVE <==> best_reply::<B, P>(
            board@,
            B::moves(board@),
            true,
            B::to_move(board@),
            max_depth as nat,
            NEG_INFINITY,
        ) == NEG_INFINITY,
        best_reply::<B, P>(
            board@,
            B::moves(board@),
            true,
            B::to_move(board@),
            max_depth as nat,
            NEG_INFINITY,
        ) > NEG_INFINITY ==> B::moves(board@).contains(best) && reply_value::<B, P>(
            board@,
            best,
            true,
            B::to_move(board@),
            max_depth as nat,
        ) == best_reply::<B, P>(
            board@,
            B::moves(board@),
            true,
            B::to_move(board@),
            max_depth as nat,
            NEG_INFINITY,
        ),
{
    let mut best_eval = NEG_INFINITY;
    let mut best_move: Move = NO_MOVE;
    let alpha = NEG_INFINITY;
    let beta = INFINITY;
    let moves = board.legal_moves();
    let ghost depth = max_depth as nat;
    let mut i: usize = 0;
    proof {
        lemma_same_moves(moves@, B::moves(board@));
    }
    while i < moves.len()
        invariant
            board.wf(),
            max_depth >= 0,
            depth == max_depth,
            alpha == NEG_INFINITY,
            beta == INFINITY,
            i <= moves.len(),
            forall|k: int| 0 <= k < moves.len() ==> B::moves(board@).contains(#[trigger] moves@[k]),
            forall|k: int| 0 <= k < moves.len() ==> #[trigger] moves@[k] != NO_MOVE,
            best_eval == best_reply::<B, P>(
                board@,
                moves@.take(i as int),
                true,
                B::to_move(board@),
                depth,
                NEG_INFINITY,
            ),
            best_move == first_best::<B, P>(board@, moves@.take(i as int), depth),
        decreases moves.len() - i,
    {
        let m = moves[i];
        let result = alphabeta(board.make_move(m), false, board.turn(), max_depth, alpha, beta);
        proof {
            let upto = moves@.take(i + 1);
            assert(upto.drop_last() == moves@.take(i as int));
            assert(upto.last() == m);
            assert(result == reply_value::<B, P>(board@, m, true, B::to_move(board@), depth));
        }
        if result > best_eval {
            best_eval = result;
            best_move = m;
        }
        i += 1;
    }
    proof {
        assert(moves@.take(i as int) == moves@);
        lemma_chosen_is_best::<B, P>(board@, depth, best_move);
        lemma_same_moves(moves@, B::moves(board@));
        if B::moves(board@).contains(NO_MOVE) {
            let k = choose|k: int| 0 <= k < moves@.len() && moves@[k] == NO_MOVE;
            assert(moves@[k] != NO_MOVE);
        }
    }
    best_move
}

/// Without depth a move is worth the score of the position that it leads
/// to: each move of the position is looked at, and no further.
pub proof fn lemma_depth_zero<B: Board<P>, P: Piece>(s: B::V, m: Move, maximizing: bool, player: P)
    ensures
        reply_value::<B, P>(s, m, maximizing, player, 0) == B::score(B::after(s, m), player),
{
}

/// A position that is over is worth its score at any depth.
pub proof fn lemma_terminal_value<B: Board<P>, P: Piece>(
    s: B::V,
    maximizing: bool,
    player: P,
    depth: nat,
)
    requires
        terminal::<P, B>(s),
    ensures
        minimax_value::<B, P>(s, maximizing, player, depth) == B::score(s, player),
{
}

/// A search with the full window returns the exact value: pruning changes
/// what is visited, not what is found.
pub proof fn lemma_full_window_is_exact(value: Score, exact: Score)
    requires
        within_window(value, exact, NEG_INFINITY, INFINITY),
    ensures
        value == exact,
{
}

/// The pick is the first move in `order` of the best value, where that
/// value is above `NEG_INFINITY`, and `NO_MOVE` where it is not.
pub proof fn lemma_first_best<B: Board<P>, P: Piece>(s: B::V, order: Seq<Move>, depth: nat)
    ensures
        best_reply::<B, P>(s, order, true, B::to_move(s), depth, NEG_INFINITY) == NEG_INFINITY
            ==> first_best::<B, P>(s, order, depth) == NO_MOVE,
        best_reply::<B, P>(s, order, true, B::to_move(s), depth, NEG_INFINITY) > NEG_INFINITY
            ==> exists|i: int|
            {
                &&& 0 <= i < order.len()
                &&& #[trigger] order[i] == first_best::<B, P>(s, order, depth)
                &&& reply_value::<B, P>(s, order[i], true, B::to_move(s), depth) == best_reply::<
                    B,
                    P,
                >(s, order, true, B::to_move(s), depth, NEG_INFINITY)
                &&& forall|j: int|
                    0 <= j < i ==> #[trigger] reply_value::<B, P>(
                        s,
                        order[j],
                        true,
                        B::to_move(s),
                        depth,
                    ) < reply_value::<B, P>(s, order[i], true, B::to_move(s), depth)
            },
    decreases order.len(),
{
    let me = B::to_move(s);
    let best = best_reply::<B, P>(s, order, true, me, depth, NEG_INFINITY);
    if order.len() > 0 {
        let front = order.drop_last();
        let before = best_reply::<B, P>(s, front, true, me, depth, NEG_INFINITY);
        let this = reply_value::<B, P>(s, order.last(), true, me, depth);
        lemma_first_best::<B, P>(s, front, depth);
        lemma_best_reply_is_best::<B, P>(s, front, true, me, depth, NEG_INFINITY);
        if this > before {
            let i = order.len() - 1;
            assert(order[i] == first_best::<B, P>(s, order, depth));
            assert forall|j: int| 0 <= j < i implies #[trigger] reply_value::<B, P>(
                s,
                order[j],
                true,
                me,
                depth,
            ) < this by {
                assert(front[j] == order[j]);
                assert(front.contains(order[j]));
            }
        } else if best > NEG_INFINITY {
            let i = choose|i: int|
                {
                    &&& 0 <= i < front.len()
                    &&& #[trigger] front[i] == first_best::<B, P>(s, front, depth)
                    &&& reply_value::<B, P>(s, front[i], true, me, depth) == before
                    &&& forall|j: int|
                        0 <= j < i ==> #[trigger] reply_value::<B, P>(s, front[j], true, me, depth)
                            < reply_value::<B, P>(s, front[i], true, me, depth)
                };
            assert(order[i] == front[i]);
            assert forall|j: int| 0 <= j < i implies #[trigger] reply_value::<B, P>(
                s,
                order[j],
                true,
                me,
                depth,
            ) < reply_value::<B, P>(s, order[i], true, me, depth) by {
                assert(front[j] == order[j]);
            }
        }
    }
}

/// Whatever the order in which the moves are listed, the move that a driver
/// returns is a legal move of the best value, where any move is worth more
/// than `NEG_INFINITY`; else the driver returns `NO_MOVE`.
pub proof fn lemma_chosen_is_best<B: Board<P>, P: Piece>(s: B::V, depth: nat, choice: Move)
    requires
        chosen_from::<B, P>(s, depth, choice),
    ensures
        best_reply::<B, P>(s, B::moves(s), true, B::to_move(s), depth, NEG_INFINITY)
            == NEG_INFINITY ==> choice == NO_MOVE,
        best_reply::<B, P>(s, B::moves(s), true, B::to_move(s), depth, NEG_INFINITY)
            > NEG_INFINITY ==> B::moves(s).contains(choice) && reply_value::<B, P>(
            s,
            choice,
            true,
            B::to_move(s),
            depth,
        ) == best_reply::<B, P>(s, B::moves(s), true, B::to_move(s), depth, NEG_INFINITY),
{
    let order = choose|order: Seq<Move>|
        #![trigger order.to_multiset()]
        {
            &&& order.to_multiset() == B::moves(s).to_multiset()
            &&& B::fixed_order() ==> order == B::moves(s)
            &&& choice == first_best::<B, P>(s, order, depth)
        };
    lemma_best_reply_any_order::<B, P>(
        s,
        order,
        B::moves(s),
        true,
        B::to_move(s),
        depth,
        NEG_INFINITY,
    );
    lemma_first_best::<B, P>(s, order, depth);
    lemma_same_moves(order, B::moves(s));
}

/// In a game that lists its moves in a fixed order, the driver returns the
/// same move whenever it is asked about the same position and depth.
pub proof fn lemma_choice_is_repeatable<B: Board<P>, P: Piece>(
    s: B::V,
    depth: nat,
    first: Move,
    second: Move,
)
    requires
        B::fixed_order(),
        chosen_from::<B, P>(s, depth, first),
        chosen_from::<B, P>(s, depth, second),
    ensures
        first == second,
{
}

/// Where no position is worth more than `top` to `player`, no minimax value
/// is either.
pub proof fn lemma_value_at_most<B: Board<P>, P: Piece>(
    s: B::V,
    maximizing: bool,
    player: P,
    depth: nat,
    top: Score,
)
    requires
        forall|t: B::V| #[trigger] B::score(t, player) <= top,
    ensures
        minimax_value::<B, P>(s, maximizing, player, depth) <= top,
    decreases depth, 1nat, 0nat,
{
    if !(terminal::<P, B>(s) || depth == 0) {
        let start = if maximizing {
            NEG_INFINITY
        } else {
            INFINITY
        };
        lemma_replies_at_most::<B, P>(
            s,
            B::moves(s),
            maximizing,
            player,
            (depth - 1) as nat,
            start,
            top,
        );
    }
}

/// Where no position is worth more than `top` to `player`, the best among
/// some moves is not, unless there is no move and the start value is.
pub proof fn lemma_replies_at_most<B: Board<P>, P: Piece>(
    s: B::V,
    ms: Seq<Move>,
    maximizing: bool,
    player: P,
    depth: nat,
    start: Score,
    top: Score,
)
    requires
        forall|t: B::V| #[trigger] B::score(t, player) <= top,
        maximizing ==> start == NEG_INFINITY,
        !maximizing ==> ms.len() > 0,
    ensures
        best_reply::<B, P>(s, ms, maximizing, player, depth, start) <= top,
    decreases depth, 2nat, ms.len(),
{
    if ms.len() > 0 {
        lemma_value_at_most::<B, P>(B::after(s, ms.last()), !maximizing, player, depth, top);
        assert(reply_value::<B, P>(s, ms.last(), maximizing, player, depth) <= top);
        if maximizing || ms.len() > 1 {
            lemma_replies_at_most::<B, P>(
                s,
                ms.drop_last(),
                maximizing,
                player,
                depth,
                start,
                top,
            );
        }
    }
}

/// Where no position is worth less than `floor` to `player`, no minimax
/// value is either.
pub proof fn lemma_value_at_least<B: Board<P>, P: Piece>(
    s: B::V,
    maximizing: bool,
    player: P,
    depth: nat,
    floor: Score,
)
    requires
        forall|t: B::V| #[trigger] B::score(t, player) >= floor,
    ensures
        minimax_value::<B, P>(s, maximizing, player, depth) >= floor,
    decreases depth, 1nat, 0nat,
{
    if !(terminal::<P, B>(s) || depth == 0) {
        let start = if maximizing {
            NEG_INFINITY
        } else {
            INFINITY
        };
        lemma_replies_at_least::<B, P>(
            s,
            B::moves(s),
            maximizing,
            player,
            (depth - 1) as nat,
            start,
            floor,
        );
    }
}

/// Where no position is worth less than `floor` to `player`, the best among
/// some moves is not, unless there is no move and the start value is.
pub proof fn lemma_replies_at_least<B: Board<P>, P: Piece>(
    s: B::V,
    ms: Seq<Move>,
    maximizing: bool,
    player: P,
    depth: nat,
    start: Score,
    floor: Score,
)
    requires
        forall|t: B::V| #[trigger] B::score(t, player) >= floor,
        !maximizing ==> start == INFINITY,
        maximizing ==> ms.len() > 0,
    ensures
        best_reply::<B, P>(s, ms, maximizing, player, depth, start) >= floor,
    decreases depth, 2nat, ms.len(),
{
    if ms.len() > 0 {
        lemma_value_at_least::<B, P>(B::after(s, ms.last()), !maximizing, player, depth, floor);
        assert(reply_value::<B, P>(s, ms.last(), maximizing, player, depth) >= floor);
        if !maximizing || ms.len() > 1 {
            lemma_replies_at_least::<B, P>(
                s,
                ms.drop_last(),
                maximizing,
                player,
                depth,
                start,
                floor,
            );
        }
    }
}

/// A move that wins at once is chosen, at any depth, where a win is worth
/// more than `NEG_INFINITY` and no position is worth more, unless a move
/// that is tried before it is worth as much.
pub proof fn lemma_immediate_win_is_chosen<B: Board<P>, P: Piece>(
    s: B::V,
    order: Seq<Move>,
    depth: nat,
    w: int,
)
    requires
        0 <= w < order.len(),
        B::won(B::after(s, order[w])),
        B::score(B::after(s, order[w]), B::to_move(s)) > NEG_INFINITY,
        forall|t: B::V| #[trigger]
            B::score(t, B::to_move(s)) <= B::score(B::after(s, order[w]), B::to_move(s)),
        forall|j: int|
            0 <= j < w ==> #[trigger] reply_value::<B, P>(s, order[j], true, B::to_move(s), depth)
                < B::score(B::after(s, order[w]), B::to_move(s)),
    ensures
        first_best::<B, P>(s, order, depth) == order[w],
{
    let me = B::to_move(s);
    let top = B::score(B::after(s, order[w]), me);
    let best = best_reply::<B, P>(s, order, true, me, depth, NEG_INFINITY);
    assert(reply_value::<B, P>(s, order[w], true, me, depth) == top);
    lemma_replies_at_most::<B, P>(s, order, true, me, depth, NEG_INFINITY, top);
    lemma_best_reply_is_best::<B, P>(s, order, true, me, depth, NEG_INFINITY);
    assert(order.contains(order[w]));
    assert(best == top);
    lemma_first_best::<B, P>(s, order, depth);
    let i = choose|i: int|
        {
            &&& 0 <= i < order.len()
            &&& #[trigger] order[i] == first_best::<B, P>(s, order, depth)
            &&& reply_value::<B, P>(s, order[i], true, me, depth) == best
            &&& forall|j: int|
                0 <= j < i ==> #[trigger] reply_value::<B, P>(s, order[j], true, me, depth)
                    < reply_value::<B, P>(s, order[i], true, me, depth)
        };
    if i < w {
        assert(reply_value::<B, P>(s, order[i], true, me, depth) < top);
    }
    if w < i {
        assert(reply_value::<B, P>(s, order[w], true, me, depth) < reply_value::<B, P>(
            s,
            order[i],
            true,
            me,
            depth,
        ));
    }
}

/// Whether the move `m` at `s` lets the opponent win at once: the game goes
/// on after `m`, and one reply leaves a decided position with the player who
/// moved at `s` to move.
pub open spec fn allows_defeat<B: Board<P>, P: Piece>(s: B::V, m: Move) -> bool {
    &&& !terminal::<P, B>(B::after(s, m))
    &&& exists|q: Move| #[trigger]
        B::moves(B::after(s, m)).contains(q) && B::won(B::after(B::after(s, m), q)) && B::to_move(
            B::after(B::after(s, m), q),
        ) == B::to_move(s)
}

/// A threat of the opponent to win at once is met: where a position that
/// the opponent has won is worth at most `floor`, and some move is worth
/// more than `floor`, the move chosen at a depth of one or more does not let
/// the opponent win at once.
pub proof fn lemma_threat_is_met<B: Board<P>, P: Piece>(
    s: B::V,
    order: Seq<Move>,
    depth: nat,
    floor: Score,
)
    requires
        depth >= 1,
        forall|t: B::V|
            B::won(t) && B::to_move(t) == B::to_move(s) ==> #[trigger] B::score(t, B::to_move(s))
                <= floor,
        exists|k: int|
            0 <= k < order.len() && #[trigger] reply_value::<B, P>(
                s,
                order[k],
                true,
                B::to_move(s),
                depth,
            ) > floor,
    ensures
        order.contains(first_best::<B, P>(s, order, depth)),
        !allows_defeat::<B, P>(s, first_best::<B, P>(s, order, depth)),
{
    let me = B::to_move(s);
    let best = best_reply::<B, P>(s, order, true, me, depth, NEG_INFINITY);
    let k = choose|k: int|
        0 <= k < order.len() && #[trigger] reply_value::<B, P>(s, order[k], true, me, depth)
            > floor;
    lemma_best_reply_is_best::<B, P>(s, order, true, me, depth, NEG_INFINITY);
    assert(order.contains(order[k]));
    assert(best > floor);
    lemma_first_best::<B, P>(s, order, depth);
    let choice = first_best::<B, P>(s, order, depth);
    assert(reply_value::<B, P>(s, choice, true, me, depth) == best);
    if allows_defeat::<B, P>(s, choice) {
        let child = B::after(s, choice);
        let q = choose|q: Move| #[trigger]
            B::moves(child).contains(q) && B::won(B::after(child, q)) && B::to_move(
                B::after(child, q),
            ) == me;
        let below = (depth - 1) as nat;
        lemma_best_reply_is_best::<B, P>(child, B::moves(child), false, me, below, INFINITY);
        assert(reply_value::<B, P>(child, q, false, me, below) == B::score(
            B::after(child, q),
            me,
        ));
        assert(false);
    }
}

/// Pruning changes what is visited, not what is found: the pruned search
/// answers for the minimax value within its window, and with the full window
/// it returns the minimax value itself.
pub proof fn lemma_pruning_keeps_the_value<B: Board<P>, P: Piece>(
    s: B::V,
    maximizing: bool,
    player: P,
    depth: nat,
    alpha: Score,
    beta: Score,
)
    ensures
        within_window(
            pruned_value::<B, P>(s, maximizing, player, depth, alpha, beta),
            minimax_value::<B, P>(s, maximizing, player, depth),
            alpha,
            beta,
        ),
        alpha == NEG_INFINITY && beta == INFINITY ==> pruned_value::<B, P>(
            s,
            maximizing,
            player,
            depth,
            alpha,
            beta,
        ) == minimax_value::<B, P>(s, maximizing, player, depth),
    decreases depth, 0nat, 0nat,
{
    if !(terminal::<P, B>(s) || depth == 0) {
        let below = (depth - 1) as nat;
        if maximizing {
            lemma_raised_scan::<B, P>(s, 0, alpha, alpha, beta, player, below);
        } else {
            lemma_lowered_scan::<B, P>(s, 0, beta, alpha, beta, player, below);
        }
    }
}

/// What `lemma_pruning_keeps_the_value` says, for a maximizing node that
/// has reached its `i`-th move with the running bound `a`.
proof fn lemma_raised_scan<B: Board<P>, P: Piece>(
    s: B::V,
    i: nat,
    a: Score,
    alpha: Score,
    beta: Score,
    player: P,
    depth: nat,
)
    requires
        !terminal::<P, B>(s),
        i <= B::moves(s).len(),
        raised_bound::<B, P>(a, s, B::moves(s), i as int, alpha, beta, player, depth),
    ensures
        within_window(
            pruned_scan::<B, P>(s, B::moves(s), i, true, player, depth, a, beta),
            minimax_value::<B, P>(s, true, player, depth + 1),
            alpha,
            beta,
        ),
    decreases depth, 1nat, B::moves(s).len() - i,
{
    let ms = B::moves(s);
    if i >= ms.len() {
        lemma_raised_bound_answers::<B, P>(a, s, ms, i as int, alpha, beta, player, depth);
    } else {
        let child = B::after(s, ms[i as int]);
        let result = pruned_value::<B, P>(child, false, player, depth, a, beta);
        lemma_pruning_keeps_the_value::<B, P>(child, false, player, depth, a, beta);
        lemma_raise_step::<B, P>(a, result, s, ms, i as int, alpha, beta, player, depth);
        let raised = higher(result, a);
        if beta <= raised {
            lemma_raised_bound_answers::<B, P>(
                raised,
                s,
                ms,
                (i + 1) as int,
                alpha,
                beta,
                player,
                depth,
            );
        } else {
            lemma_raised_scan::<B, P>(s, (i + 1) as nat, raised, alpha, beta, player, depth);
        }
    }
}

/// What `lemma_pruning_keeps_the_value` says, for a minimizing node that
/// has reached its `i`-th move with the running bound `b`.
proof fn lemma_lowered_scan<B: Board<P>, P: Piece>(
    s: B::V,
    i: nat,
    b: Score,
    alpha: Score,
    beta: Score,
    player: P,
    depth: nat,
)
    requires
        !terminal::<P, B>(s),
        i <= B::moves(s).len(),
        lowered_bound::<B, P>(b, s, B::moves(s), i as int, alpha, beta, player, depth),
    ensures
        within_window(
            pruned_scan::<B, P>(s, B::moves(s), i, false, player, depth, alpha, b),
            minimax_value::<B, P>(s, false, player, depth + 1),
            alpha,
            beta,
        ),
    decreases depth, 1nat, B::moves(s).len() - i,
{
    let ms = B::moves(s);
    if i >= ms.len() {
        lemma_lowered_bound_answers::<B, P>(b, s, ms, i as int, alpha, beta, player, depth);
    } else {
        let child = B::after(s, ms[i as int]);
        let result = pruned_value::<B, P>(child, true, player, depth, alpha, b);
        lemma_pruning_keeps_the_value::<B, P>(child, true, player, depth, alpha, b);
        lemma_lower_step::<B, P>(b, result, s, ms, i as int, alpha, beta, player, depth);
        let lowered = lower(result, b);
        if lowered <= alpha {
            lemma_lowered_bound_answers::<B, P>(
                lowered,
                s,
                ms,
                (i + 1) as int,
                alpha,
                beta,
                player,
                depth,
            );
        } else {
            lemma_lowered_scan::<B, P>(s, (i + 1) as nat, lowered, alpha, beta, player, depth);
        }
    }
}

/// The number of positions that the full search evaluates from `s` to the
/// depth given: one where the search ends at `s`, else those of all moves.
pub open spec fn full_evaluations<B: Board<P>, P: Piece>(s: B::V, depth: nat) -> nat
    decreases depth, 0nat, 0nat,
{
    if terminal::<P, B>(s) || depth == 0 {
        1
    } else {
        full_evaluations_from::<B, P>(s, B::moves(s), 0, (depth - 1) as nat)
    }
}

/// The number of positions that the full search evaluates behind the moves
/// `ms` from the `i`-th on.
pub open spec fn full_evaluations_from<B: Board<P>, P: Piece>(
    s: B::V,
    ms: Seq<Move>,
    i: nat,
    depth: nat,
) -> nat
    decreases depth, 1nat, ms.len() - i,
{
    if i >= ms.len() {
        0
    } else {
        full_evaluations::<B, P>(B::after(s, ms[i as int]), depth) + full_evaluations_from::<B, P>(
            s,
            ms,
            i + 1,
            depth,
        )
    }
}

/// The number of positions that the pruned search evaluates from `s`
/// within the window from `alpha` to `beta` when the moves are tried in
/// their canonical order.
pub open spec fn pruned_evaluations<B: Board<P>, P: Piece>(
    s: B::V,
    maximizing: bool,
    player: P,
    depth: nat,
    alpha: Score,
    beta: Score,
) -> nat
    decreases depth, 0nat, 0nat,
{
    if terminal::<P, B>(s) || depth == 0 {
        1
    } else {
        pruned_evaluations_from::<B, P>(
            s,
            B::moves(s),
            0,
            maximizing,
            player,
            (depth - 1) as nat,
            alpha,
            beta,
        )
    }
}

/// The number of positions that the pruned search evaluates behind the
/// moves `ms` from the `i`-th on, which it reaches with the running bounds
/// `a` and `b`: those behind the move, and those behind the moves after it
/// unless the bounds meet.
pub open spec fn pruned_evaluations_from<B: Board<P>, P: Piece>(
    s: B::V,
    ms: Seq<Move>,
    i: nat,
    maximizing: bool,
    player: P,
    depth: nat,
    a: Score,
    b: Score,
) -> nat
    decreases depth, 1nat, ms.len() - i,
{
    if i >= ms.len() {
        0
    } else {
        let child = B::after(s, ms[i as int]);
        let result = pruned_value::<B, P>(child, !maximizing, player, depth, a, b);
        let here = pruned_evaluations::<B, P>(child, !maximizing, player, depth, a, b);
        if maximizing {
            let raised = higher(result, a);
            if b <= raised {
                here
            } else {
                here + pruned_evaluations_from::<B, P>(
                    s,
                    ms,
                    i + 1,
                    maximizing,
                    player,
                    depth,
                    raised,
                    b,
                )
            }
        } else {
            let lowered = lower(result, b);
            if lowered <= a {
                here
            } else {
                here + pruned_evaluations_from::<B, P>(
                    s,
                    ms,
                    i + 1,
                    maximizing,
                    player,
                    depth,
                    a,
                    lowered,
                )
            }
        }
    }
}

/// By these counts the pruned search evaluates no more positions than the
/// full search, whatever the window.
pub proof fn lemma_pruning_evaluates_no_more<B: Board<P>, P: Piece>(
    s: B::V,
    maximizing: bool,
    player: P,
    depth: nat,
    alpha: Score,
    beta: Score,
)
    ensures
        pruned_evaluations::<B, P>(s, maximizing, player, depth, alpha, beta) <= full_evaluations::<
            B,
            P,
        >(s, depth),
    decreases depth, 0nat, 0nat,
{
    if !(terminal::<P, B>(s) || depth == 0) {
        lemma_pruning_evaluates_no_more_from::<B, P>(
            s,
            B::moves(s),
            0,
            maximizing,
            player,
            (depth - 1) as nat,
            alpha,
            beta,
        );
    }
}

/// What `lemma_pruning_evaluates_no_more` says, for the moves from the
/// `i`-th on.
pub proof fn lemma_pruning_evaluates_no_more_from<B: Board<P>, P: Piece>(
    s: B::V,
    ms: Seq<Move>,
    i: nat,
    maximizing: bool,
    player: P,
    depth: nat,
    a: Score,
    b: Score,
)
    ensures
        pruned_evaluations_from::<B, P>(s, ms, i, maximizing, player, depth, a, b)
            <= full_evaluations_from::<B, P>(s, ms, i, depth),
    decreases depth, 1nat, ms.len() - i,
{
    if i < ms.len() {
        let child = B::after(s, ms[i as int]);
        let result = pruned_value::<B, P>(child, !maximizing, player, depth, a, b);
        lemma_pruning_evaluates_no_more::<B, P>(child, !maximizing, player, depth, a, b);
        if maximizing {
            lemma_pruning_evaluates_no_more_from::<B, P>(
                s,
                ms,
                i + 1,
                maximizing,
                player,
                depth,
                higher(result, a),
                b,
            );
        } else {
            lemma_pruning_evaluates_no_more_from::<B, P>(
                s,
                ms,
                i + 1,
                maximizing,
                player,
                depth,
                a,
                lower(result, b),
            );
        }
    }
}

} // verus!
