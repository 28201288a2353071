//! Properties relating the searches to each other.

use vstd::prelude::*;
use crate::point::Point;
use crate::board::{BoardView, wf, legal, apply, lemma_history_bound, lemma_apply_wf, lemma_legal_upto};
use crate::search::{can_win, count_lines, lines_upto, minimax, mm_upto, win_upto};

verus! {

/// The forced-win search and the score search agree on the outcome: the score is never
/// zero, and the side to move can force a win exactly when the score is in its favour
/// (positive for side 0, negative for side 1).
pub proof fn lemma_win_agrees_with_score(b: BoardView)
    requires
        wf(b),
    ensures
        minimax(b) != 0,
        can_win(b) <==> if b.turn == 0 {
            minimax(b) > 0
        } else {
            minimax(b) < 0
        },
    decreases 16 - b.history.len(), 17nat,
{
    lemma_history_bound(b);
    lemma_legal_upto(b, 16);
    if legal(b).len() > 0 {
        lemma_win_score_upto(b, legal(b).len());
    }
}

proof fn lemma_win_score_upto(b: BoardView, n: nat)
    requires
        wf(b),
        n <= legal(b).len(),
        legal(b).len() <= 16,
    ensures
        mm_upto(b, n) != 0,
        win_upto(b, n) <==> if b.turn == 0 {
            mm_upto(b, n) > 0
        } else {
            mm_upto(b, n) < 0
        },
    decreases 16 - b.history.len(), n,
{
    lemma_history_bound(b);
    if n > 0 {
        lemma_win_score_upto(b, (n - 1) as nat);
        let m = legal(b)[n - 1];
        assert(legal(b).contains(m));
        lemma_apply_wf(b, m);
        lemma_win_agrees_with_score(apply(b, m));
    }
}

/// Sum of a sequence of naturals.
pub open spec fn sum_nat(s: Seq<nat>) -> nat
    decreases s.len(),
{
    if s.len() == 0 {
        0
    } else {
        sum_nat(s.drop_last()) + s.last()
    }
}

/// Complete lines after each legal move, in the order of the legal moves.
pub open spec fn lines_after_each_move(b: BoardView) -> Seq<nat> {
    legal(b).map_values(|m: Point| count_lines(apply(b, m)))
}

/// The complete lines from a position with a legal move are the sum, over its legal
/// moves, of the complete lines after that move; a position without one is a single line.
pub proof fn lemma_lines_split_by_first_move(b: BoardView)
    requires
        wf(b),
    ensures
        legal(b).len() == 0 ==> count_lines(b) == 1,
        legal(b).len() > 0 ==> count_lines(b) == sum_nat(lines_after_each_move(b)),
{
    lemma_history_bound(b);
    lemma_lines_prefix_sum(b, legal(b).len());
    assert(legal(b).take(legal(b).len() as int) =~= legal(b));
}

proof fn lemma_lines_prefix_sum(b: BoardView, n: nat)
    requires
        wf(b),
        b.history.len() <= 14,
        n <= legal(b).len(),
    ensures
        lines_upto(b, n) == sum_nat(
            legal(b).take(n as int).map_values(|m: Point| count_lines(apply(b, m))),
        ),
    decreases n,
{
    let f = |m: Point| count_lines(apply(b, m));
    if n > 0 {
        lemma_lines_prefix_sum(b, (n - 1) as nat);
        assert(legal(b).take(n as int).map_values(f).drop_last() =~= legal(b).take(n - 1).map_values(
            f,
        ));
    } else {
        assert(legal(b).take(0).map_values(f) =~= Seq::<nat>::empty());
    }
}

} // verus!
